//! Connection identifiers and the events that connection handlers exchange.
use vstd::prelude::*;
use crate::middleware_interface::NodeConfig;
use vstd::std_specs::cmp::PartialEqSpecImpl;
use vstd::std_specs::ops::AddSpecImpl;
use core::ops::Add;

verus! {

/// A numeric type that can serve as the value of a [`ConnectionId`].
///
/// It gives the identifier a zero, a one and a successor, which together
/// stand for the `Default`, `From<bool>` and `Add` bounds of a counter.
pub trait ConnectionIdValue: Copy + Sized {
    /// The mathematical value of the identifier.
    spec fn id_value(&self) -> int;

    /// The largest value the type can hold.
    spec fn max_id_value() -> int;

    /// The value zero (what `Default` gives).
    fn zero() -> (r: Self)
        ensures
            r.id_value() == 0,
    ;

    /// The smallest value the type can hold.
    spec fn min_id_value() -> int;

    /// The value one (what `From<bool>` gives for `true`).
    fn one() -> (r: Self)
        ensures
            r.id_value() == 1,
    ;

    /// The value plus one; the addition must not overflow.
    fn incremented(self) -> (r: Self)
        requires
            self.id_value() < Self::max_id_value(),
        ensures
            r.id_value() == self.id_value() + 1,
    ;

    /// The sum of two values; the addition must not overflow.
    fn plus(self, other: Self) -> (r: Self)
        requires
            Self::min_id_value() <= self.id_value() + other.id_value() <= Self::max_id_value(),
        ensures
            r.id_value() == self.id_value() + other.id_value(),
    ;

    /// Whether the value can still be incremented.
    fn below_max(&self) -> (r: bool)
        ensures
            r == (self.id_value() < Self::max_id_value()),
    ;

    /// Whether two values are equal.
    fn same_as(&self, other: &Self) -> (r: bool)
        ensures
            r == (self.id_value() == other.id_value()),
    ;

    /// Two values with the same mathematical value are the same value.
    proof fn lemma_id_value_injective(a: Self, b: Self)
        ensures
            a.id_value() == b.id_value() ==> a == b,
    ;

    /// Every type can count at least to one.
    proof fn lemma_max_id_value_positive()
        ensures
            Self::max_id_value() >= 1,
    ;
}

/// The identifier of a connection inside a pool.
#[derive(Debug, Copy, Clone, Hash, PartialEq, Eq, PartialOrd, Ord, Default)]
pub struct ConnectionId<Id>(pub Id);

impl<Id: ConnectionIdValue> ConnectionId<Id> {
    /// The mathematical value of the identifier.
    pub open spec fn value(self) -> int {
        self.0.id_value()
    }

    /// Creates a unique id for a new connection.
    pub fn new(id: Id) -> (r: Self)
        ensures
            r.0 == id,
    {
        ConnectionId(id)
    }

    /// Advances the identifier by one and returns the advanced identifier.
    pub fn incr(&mut self) -> (r: Self)
        requires
            old(self).value() < Id::max_id_value(),
        ensures
            final(self).value() == old(self).value() + 1,
            r == *final(self),
    {
        self.0 = self.0.incremented();
        *self
    }

    /// Whether two identifiers name the same connection.
    pub fn same_as(&self, other: &Self) -> (r: bool)
        ensures
            r == (self.value() == other.value()),
    {
        self.0.same_as(&other.0)
    }
}

impl<Id: ConnectionIdValue> Add<Id> for ConnectionId<Id> {
    type Output = Self;

    /// The identifier advanced by `other`; the addition must not overflow.
    fn add(self, other: Id) -> (r: Self) {
        let r = ConnectionId(self.0.plus(other));
        proof {
            let v = choose|v: Id| v.id_value() == self.value() + other.id_value();
            Id::lemma_id_value_injective(v, r.0);
        }
        r
    }
}

impl<Id: ConnectionIdValue> AddSpecImpl<Id> for ConnectionId<Id> {
    open spec fn obeys_add_spec() -> bool {
        true
    }

    open spec fn add_req(self, other: Id) -> bool {
        Id::min_id_value() <= self.value() + other.id_value() <= Id::max_id_value()
    }

    open spec fn add_spec(self, other: Id) -> ConnectionId<Id> {
        ConnectionId(choose|v: Id| v.id_value() == self.value() + other.id_value())
    }
}

/// `rs` are what successive calls of `incr` return, starting from `c0`:
/// each call's result is one more than the identifier before it.
pub open spec fn incr_chain<Id: ConnectionIdValue>(c0: ConnectionId<Id>, rs: Seq<ConnectionId<Id>>) -> bool {
    &&& rs.len() > 0 ==> rs[0].value() == c0.value() + 1
    &&& forall|i: int| 0 < i < rs.len() ==> #[trigger] rs[i].value() == rs[i - 1].value() + 1
}

/// Successive calls of `incr` give `c0 + 1`, `c0 + 2`, ...: strictly
/// increasing identifiers, all distinct and all different from `c0`.
pub proof fn lemma_incr_chain<Id: ConnectionIdValue>(c0: ConnectionId<Id>, rs: Seq<ConnectionId<Id>>)
    requires
        incr_chain(c0, rs),
    ensures
        forall|i: int| 0 <= i < rs.len() ==> #[trigger] rs[i].value() == c0.value() + i + 1,
        forall|i: int, j: int| 0 <= i < j < rs.len() ==> #[trigger] rs[i].value() < #[trigger] rs[j].value(),
        forall|i: int, j: int| 0 <= i < j < rs.len() ==> #[trigger] rs[i] != #[trigger] rs[j],
        forall|i: int| 0 <= i < rs.len() ==> #[trigger] rs[i] != c0,
    decreases rs.len(),
{
    if rs.len() > 0 {
        let prefix = rs.drop_last();
        assert forall|i: int| 0 < i < prefix.len() implies #[trigger] prefix[i].value() == prefix[i - 1].value() + 1 by {
            assert(rs[i].value() == rs[i - 1].value() + 1);
        }
        lemma_incr_chain(c0, prefix);
        assert forall|i: int| 0 <= i < rs.len() implies #[trigger] rs[i].value() == c0.value() + i + 1 by {
            if i < prefix.len() {
                assert(prefix[i] == rs[i]);
            } else if i > 0 {
                assert(prefix[i - 1] == rs[i - 1]);
                assert(rs[i].value() == rs[i - 1].value() + 1);
            }
        }
    }
    assert forall|i: int, j: int| 0 <= i < j < rs.len() implies #[trigger] rs[i] != #[trigger] rs[j] by {
        assert(rs[i].value() == c0.value() + i + 1);
        assert(rs[j].value() == c0.value() + j + 1);
    }
    assert forall|i: int| 0 <= i < rs.len() implies #[trigger] rs[i] != c0 by {
        assert(rs[i].value() == c0.value() + i + 1);
    }
}

/// A connection: its identifier and the node it was opened for.
#[derive(Debug, Clone)]
pub struct Connection<Id> {
    pub id: ConnectionId<Id>,
    pub source_type: NodeConfig,
}

impl<Id: ConnectionIdValue> PartialEq for Connection<Id> {
    fn eq(&self, other: &Self) -> (r: bool) {
        self.id.same_as(&other.id)
    }
}

impl<Id: ConnectionIdValue> PartialEqSpecImpl for Connection<Id> {
    open spec fn obeys_eq_spec() -> bool {
        true
    }

    open spec fn eq_spec(&self, other: &Connection<Id>) -> bool {
        self.id.value() == other.id.value()
    }
}

impl<Id: ConnectionIdValue> Eq for Connection<Id> {
}

/// Requests that a connection handler accepts.
#[derive(Debug, Clone, Copy, PartialEq, Eq)]
pub enum ConnectionHandlerInEvent {
    Connect,
    Disconnect,
    Intercept,
}

/// Events that a connection handler emits.
#[derive(Debug, Clone)]
pub enum ConnectionHandlerOutEvent<TCustom> {
    ConnectionEstablished(TCustom),
    ConnectionClosed(TCustom),
    ConnectionEvent(TCustom),
    Custom,
}

} // verus!
