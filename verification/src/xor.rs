//! Peer identifiers, their keys and the XOR distance between keys.
//!
//! Identifiers and distances are 256-bit values held as four 64-bit limbs,
//! most significant limb first, so that the order of the limbs is the order
//! of the numbers.
use vstd::prelude::*;
use vstd::std_specs::bits::u64_leading_zeros;
use vstd::arithmetic::power2::{pow2, lemma2_to64, lemma_pow2_adds, lemma_pow2_pos};
use vstd::bits::lemma_u64_shr_is_div;

verus! {

/// The identifier of a peer: a 256-bit value, most significant limb first.
#[derive(Debug, Clone, Copy, PartialEq, Eq, Structural, Hash, PartialOrd, Ord, Default)]
pub struct PeerId(pub u64, pub u64, pub u64, pub u64);

/// The XOR distance between two keys: a 256-bit value, most significant
/// limb first.
#[derive(Debug, Clone, Copy, PartialEq, Eq, Structural, Hash, PartialOrd, Ord, Default)]
pub struct Distance(pub u64, pub u64, pub u64, pub u64);

/// The key of a peer in the XOR metric space.
#[derive(Debug, Clone, Copy, PartialEq, Eq, Structural, Hash)]
pub struct Key {
    preimage: PeerId,
}

/// The distance between the keys of two peers: their limbs XORed.
pub open spec fn xor_distance(a: PeerId, b: PeerId) -> Distance {
    Distance(a.0 ^ b.0, a.1 ^ b.1, a.2 ^ b.2, a.3 ^ b.3)
}

/// The distance zero.
pub open spec fn zero_distance() -> Distance {
    Distance(0, 0, 0, 0)
}

/// `a` is smaller than `b` as a 256-bit number.
pub open spec fn dist_lt(a: Distance, b: Distance) -> bool {
    ||| a.0 < b.0
    ||| a.0 == b.0 && a.1 < b.1
    ||| a.0 == b.0 && a.1 == b.1 && a.2 < b.2
    ||| a.0 == b.0 && a.1 == b.1 && a.2 == b.2 && a.3 < b.3
}

/// `a` is at most `b` as a 256-bit number.
pub open spec fn dist_le(a: Distance, b: Distance) -> bool {
    dist_lt(a, b) || a == b
}

/// `a` is smaller than `b` as a 256-bit number.
pub open spec fn peer_lt(a: PeerId, b: PeerId) -> bool {
    ||| a.0 < b.0
    ||| a.0 == b.0 && a.1 < b.1
    ||| a.0 == b.0 && a.1 == b.1 && a.2 < b.2
    ||| a.0 == b.0 && a.1 == b.1 && a.2 == b.2 && a.3 < b.3
}

/// The position of the highest set bit of a distance, or none for zero.
pub open spec fn distance_ilog2(d: Distance) -> Option<u32> {
    if d.0 != 0 {
        Some((255 - u64_leading_zeros(d.0)) as u32)
    } else if d.1 != 0 {
        Some((191 - u64_leading_zeros(d.1)) as u32)
    } else if d.2 != 0 {
        Some((127 - u64_leading_zeros(d.2)) as u32)
    } else if d.3 != 0 {
        Some((63 - u64_leading_zeros(d.3)) as u32)
    } else {
        None
    }
}

impl PeerId {
    /// Whether this identifier is smaller than `other`.
    pub fn less_than(&self, other: &PeerId) -> (r: bool)
        ensures
            r == peer_lt(*self, *other),
            r == (peer_value(*self) < peer_value(*other)),
    {
        proof {
            lemma_peer_order_is_numeric(*self, *other);
        }
        if self.0 != other.0 {
            self.0 < other.0
        } else if self.1 != other.1 {
            self.1 < other.1
        } else if self.2 != other.2 {
            self.2 < other.2
        } else {
            self.3 < other.3
        }
    }
}

impl Key {
    /// The peer whose key this is.
    pub closed spec fn peer(self) -> PeerId {
        self.preimage
    }

    /// The key of a peer.
    pub fn from(peer: PeerId) -> (r: Key)
        ensures
            r.peer() == peer,
    {
        Key { preimage: peer }
    }

    /// The peer whose key this is.
    pub fn preimage(&self) -> (r: &PeerId)
        ensures
            *r == self.peer(),
    {
        &self.preimage
    }

    /// The XOR distance between two keys.
    pub fn distance(&self, other: &Key) -> (r: Distance)
        ensures
            r == xor_distance(self.peer(), other.peer()),
    {
        Distance(
            self.preimage.0 ^ other.preimage.0,
            self.preimage.1 ^ other.preimage.1,
            self.preimage.2 ^ other.preimage.2,
            self.preimage.3 ^ other.preimage.3,
        )
    }
}

impl Distance {
    /// The largest distance: all bits set.
    pub fn maximum() -> (r: Distance)
        ensures
            r == Distance(u64::MAX, u64::MAX, u64::MAX, u64::MAX),
            forall|d: Distance| dist_le(d, r),
    {
        Distance(u64::MAX, u64::MAX, u64::MAX, u64::MAX)
    }

    /// Whether this distance is smaller than `other`.
    pub fn less_than(&self, other: &Distance) -> (r: bool)
        ensures
            r == dist_lt(*self, *other),
            r == (distance_value(*self) < distance_value(*other)),
    {
        proof {
            lemma_dist_order_is_numeric(*self, *other);
        }
        if self.0 != other.0 {
            self.0 < other.0
        } else if self.1 != other.1 {
            self.1 < other.1
        } else if self.2 != other.2 {
            self.2 < other.2
        } else {
            self.3 < other.3
        }
    }

    /// Whether this distance is at most `other`.
    pub fn less_or_equal(&self, other: &Distance) -> (r: bool)
        ensures
            r == dist_le(*self, *other),
            r == (distance_value(*self) <= distance_value(*other)),
    {
        proof {
            lemma_dist_order_is_numeric(*self, *other);
        }
        *self == *other || self.less_than(other)
    }

    /// The position of the highest set bit, or `None` for the distance zero.
    pub fn ilog2(&self) -> (r: Option<u32>)
        ensures
            r == distance_ilog2(*self),
            r is None <==> distance_value(*self) == 0,
            r is Some ==> pow2(r->Some_0 as nat) <= distance_value(*self) < pow2(r->Some_0 as nat + 1),
    {
        broadcast use vstd::std_specs::bits::axiom_u64_leading_zeros;

        proof {
            lemma_ilog2_is_log2(*self);
            lemma_dist_order_is_numeric(*self, zero_distance());
            lemma_limb_powers();
        }

        if self.0 != 0 {
            Some(255 - self.0.leading_zeros())
        } else if self.1 != 0 {
            Some(191 - self.1.leading_zeros())
        } else if self.2 != 0 {
            Some(127 - self.2.leading_zeros())
        } else if self.3 != 0 {
            Some(63 - self.3.leading_zeros())
        } else {
            None
        }
    }
}

/// `dist_lt` is transitive.
pub proof fn lemma_dist_lt_transitive(a: Distance, b: Distance, c: Distance)
    requires
        dist_lt(a, b),
        dist_lt(b, c),
    ensures
        dist_lt(a, c),
{
}

/// Any two distances are ordered one way or the other, or equal.
pub proof fn lemma_dist_total(a: Distance, b: Distance)
    ensures
        dist_lt(a, b) || a == b || dist_lt(b, a),
        !(dist_lt(a, b) && dist_lt(b, a)),
        !dist_lt(a, a),
{
}

/// The facts about XOR on one limb that the metric laws rest on.
proof fn lemma_xor_limb(x: u64, y: u64, z: u64)
    by (bit_vector)
    ensures
        x ^ x == 0,
        x ^ y == y ^ x,
        x ^ y == x ^ z ==> y == z,
{
}

/// The distance of a key to itself is zero.
pub proof fn lemma_distance_to_self(a: PeerId)
    ensures
        xor_distance(a, a) == zero_distance(),
{
    lemma_xor_limb(a.0, a.0, a.0);
    lemma_xor_limb(a.1, a.1, a.1);
    lemma_xor_limb(a.2, a.2, a.2);
    lemma_xor_limb(a.3, a.3, a.3);
}

/// The distance is symmetric.
pub proof fn lemma_distance_symmetric(a: PeerId, b: PeerId)
    ensures
        xor_distance(a, b) == xor_distance(b, a),
{
    lemma_xor_limb(a.0, b.0, b.0);
    lemma_xor_limb(a.1, b.1, b.1);
    lemma_xor_limb(a.2, b.2, b.2);
    lemma_xor_limb(a.3, b.3, b.3);
}

/// From one key, no two other keys lie at the same distance: the XOR metric
/// is unidirectional.
pub proof fn lemma_distance_unidirectional(a: PeerId, b: PeerId, c: PeerId)
    requires
        xor_distance(a, b) == xor_distance(a, c),
    ensures
        b == c,
{
    lemma_xor_limb(a.0, b.0, c.0);
    lemma_xor_limb(a.1, b.1, c.1);
    lemma_xor_limb(a.2, b.2, c.2);
    lemma_xor_limb(a.3, b.3, c.3);
}

/// Two keys are at distance zero exactly when they are the same key.
pub proof fn lemma_distance_zero_iff_equal(a: PeerId, b: PeerId)
    ensures
        (xor_distance(a, b) == zero_distance()) <==> (a == b),
{
    lemma_distance_to_self(a);
    if xor_distance(a, b) == zero_distance() {
        lemma_distance_unidirectional(a, a, b);
    }
}

/// `ilog2` is `None` exactly for the distance zero.
pub proof fn lemma_ilog2_none_iff_zero(d: Distance)
    ensures
        (distance_ilog2(d) is None) <==> (d == zero_distance()),
{
}


/// The value of a 256-bit number held as four 64-bit limbs, most
/// significant limb first.
pub open spec fn limbs_value(a: u64, b: u64, c: u64, d: u64) -> int {
    a * pow2(192) + b * pow2(128) + c * pow2(64) + d
}

/// The numeric value of a distance.
pub open spec fn distance_value(d: Distance) -> int {
    limbs_value(d.0, d.1, d.2, d.3)
}

/// The numeric value of a peer identifier.
pub open spec fn peer_value(p: PeerId) -> int {
    limbs_value(p.0, p.1, p.2, p.3)
}

/// The powers of two at the limb boundaries.
proof fn lemma_limb_powers()
    ensures
        pow2(64) == 0x1_0000_0000_0000_0000,
        pow2(128) == pow2(64) * pow2(64),
        pow2(192) == pow2(128) * pow2(64),
{
    lemma2_to64();
    lemma_pow2_adds(64, 64);
    lemma_pow2_adds(128, 64);
}

/// Comparing `hx * base + lx` with `hy * base + ly`, for low parts below
/// the base, compares the high parts first and then the low parts.
proof fn lemma_compare_digits(hx: int, lx: int, hy: int, ly: int, base: int)
    requires
        0 <= lx < base,
        0 <= ly < base,
    ensures
        (hx * base + lx < hy * base + ly) <==> (hx < hy || (hx == hy && lx < ly)),
        (hx * base + lx == hy * base + ly) <==> (hx == hy && lx == ly),
{
    if hx < hy {
        assert(hx * base + base <= hy * base) by (nonlinear_arith)
            requires
                hx < hy,
                0 < base,
        ;
    } else if hy < hx {
        assert(hy * base + base <= hx * base) by (nonlinear_arith)
            requires
                hy < hx,
                0 < base,
        ;
    }
}

/// Comparing the values of two four-limb numbers compares their limbs
/// lexicographically, most significant first.
proof fn lemma_limbs_compare(a: u64, b: u64, c: u64, d: u64, e: u64, f: u64, g: u64, h: u64)
    ensures
        (limbs_value(a, b, c, d) < limbs_value(e, f, g, h)) <==> (a < e || (a == e && b < f) || (a == e && b == f
            && c < g) || (a == e && b == f && c == g && d < h)),
        (limbs_value(a, b, c, d) == limbs_value(e, f, g, h)) <==> (a == e && b == f && c == g && d == h),
{
    lemma_limb_powers();
    let base: int = 0x1_0000_0000_0000_0000;
    let x2 = a * base + b;
    let y2 = e * base + f;
    let x3 = x2 * base + c;
    let y3 = y2 * base + g;
    assert(limbs_value(a, b, c, d) == x3 * base + d) by (nonlinear_arith)
        requires
            x2 == a * base + b,
            x3 == x2 * base + c,
            pow2(64) == base,
            pow2(128) == base * base,
            pow2(192) == (base * base) * base,
            limbs_value(a, b, c, d) == a * pow2(192) + b * pow2(128) + c * pow2(64) + d,
    ;
    assert(limbs_value(e, f, g, h) == y3 * base + h) by (nonlinear_arith)
        requires
            y2 == e * base + f,
            y3 == y2 * base + g,
            pow2(64) == base,
            pow2(128) == base * base,
            pow2(192) == (base * base) * base,
            limbs_value(e, f, g, h) == e * pow2(192) + f * pow2(128) + g * pow2(64) + h,
    ;
    lemma_compare_digits(a as int, b as int, e as int, f as int, base);
    lemma_compare_digits(x2, c as int, y2, g as int, base);
    lemma_compare_digits(x3, d as int, y3, h as int, base);
}

/// `dist_lt` and `dist_le` are the numeric order of distances, and two
/// distances are equal exactly when their values are.
pub proof fn lemma_dist_order_is_numeric(a: Distance, b: Distance)
    ensures
        dist_lt(a, b) <==> distance_value(a) < distance_value(b),
        dist_le(a, b) <==> distance_value(a) <= distance_value(b),
        (a == b) <==> (distance_value(a) == distance_value(b)),
{
    lemma_limbs_compare(a.0, a.1, a.2, a.3, b.0, b.1, b.2, b.3);
}

/// `peer_lt` is the numeric order of peer identifiers, and two identifiers
/// are equal exactly when their values are.
pub proof fn lemma_peer_order_is_numeric(a: PeerId, b: PeerId)
    ensures
        peer_lt(a, b) <==> peer_value(a) < peer_value(b),
        (a == b) <==> (peer_value(a) == peer_value(b)),
{
    lemma_limbs_compare(a.0, a.1, a.2, a.3, b.0, b.1, b.2, b.3);
}

/// A nonzero limb lies between the power of two of its highest set bit and
/// the next power of two.
proof fn lemma_limb_log(x: u64)
    requires
        x != 0,
    ensures
        u64_leading_zeros(x) < 64,
        pow2((63 - u64_leading_zeros(x)) as nat) <= x,
        x < pow2((64 - u64_leading_zeros(x)) as nat),
{
    broadcast use vstd::std_specs::bits::axiom_u64_leading_zeros;

    let z = u64_leading_zeros(x);
    let k: u64 = (63 - z) as u64;
    lemma_u64_shr_is_div(x, k);
    lemma_pow2_pos(k as nat);
    assert(x >> k != 0) by (bit_vector)
        requires
            (x >> k) & 1u64 != 0u64,
    ;
    assert(x as nat / pow2(k as nat) >= 1);
    vstd::arithmetic::div_mod::lemma_fundamental_div_mod(x as int, pow2(k as nat) as int);
    assert(pow2(k as nat) <= x) by (nonlinear_arith)
        requires
            x as nat / pow2(k as nat) >= 1,
            x == pow2(k as nat) * (x as nat / pow2(k as nat)) + x as nat % pow2(k as nat),
            x as nat % pow2(k as nat) >= 0,
            pow2(k as nat) > 0,
    ;
    if z == 0 {
        lemma2_to64();
    } else {
        let k1: u64 = (64 - z) as u64;
        lemma_u64_shr_is_div(x, k1);
        lemma_pow2_pos(k1 as nat);
        assert(x as nat / pow2(k1 as nat) == 0);
        vstd::arithmetic::div_mod::lemma_fundamental_div_mod(x as int, pow2(k1 as nat) as int);
    }
}

/// A number `x * 2^p + low`, with `x` between `2^k` and `2^(k+1)` and `low`
/// below `2^p`, lies between `2^(p+k)` and `2^(p+k+1)`.
proof fn lemma_bracket(x: int, low: int, p: nat, k: nat)
    requires
        pow2(k) <= x < pow2(k + 1),
        0 <= low < pow2(p),
    ensures
        pow2(p + k) <= x * pow2(p) + low < pow2(p + k + 1),
{
    lemma_pow2_adds(p, k);
    lemma_pow2_adds(p, k + 1);
    assert(pow2(p) * pow2(k) <= x * pow2(p)) by (nonlinear_arith)
        requires
            pow2(k) <= x,
    ;
    assert(x * pow2(p) + pow2(p) <= pow2(p) * pow2(k + 1)) by (nonlinear_arith)
        requires
            x + 1 <= pow2(k + 1),
    ;
    assert(p + (k + 1) == p + k + 1);
}

/// `ilog2` gives the integer base-2 logarithm of a distance: for a nonzero
/// distance it is the `n` with `2^n <= value < 2^(n+1)`; for zero, `None`.
pub proof fn lemma_ilog2_is_log2(d: Distance)
    ensures
        d == zero_distance() ==> distance_ilog2(d) is None,
        d != zero_distance() ==> distance_ilog2(d) is Some && pow2(distance_ilog2(d)->Some_0 as nat)
            <= distance_value(d) < pow2(distance_ilog2(d)->Some_0 as nat + 1),
{
    lemma_limb_powers();
    if d.0 != 0 {
        lemma_limb_log(d.0);
        lemma_limbs_compare(0, d.1, d.2, d.3, 1, 0, 0, 0);
        lemma_bracket(d.0 as int, limbs_value(0, d.1, d.2, d.3), 192, (63 - u64_leading_zeros(d.0)) as nat);
    } else if d.1 != 0 {
        lemma_limb_log(d.1);
        lemma_limbs_compare(0, 0, d.2, d.3, 0, 1, 0, 0);
        lemma_bracket(d.1 as int, limbs_value(0, 0, d.2, d.3), 128, (63 - u64_leading_zeros(d.1)) as nat);
    } else if d.2 != 0 {
        lemma_limb_log(d.2);
        lemma_limbs_compare(0, 0, 0, d.3, 0, 0, 1, 0);
        lemma_bracket(d.2 as int, limbs_value(0, 0, 0, d.3), 64, (63 - u64_leading_zeros(d.2)) as nat);
    } else if d.3 != 0 {
        lemma_limb_log(d.3);
        lemma2_to64();
        lemma_bracket(d.3 as int, 0, 0, (63 - u64_leading_zeros(d.3)) as nat);
    }
}

} // verus!
