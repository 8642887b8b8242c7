//! Routers and routing tables over the XOR metric.
//!
//! A route is a peer together with its distance from some key. A router
//! knows a list of peers and answers, for a target, the known peer closest
//! to it or the `k` closest distinct routes to it.
use vstd::prelude::*;
use crate::xor::{
    Distance, Key, PeerId, dist_le, dist_lt, peer_lt, xor_distance, lemma_dist_lt_transitive, lemma_dist_total,
    lemma_distance_unidirectional, distance_value, peer_value, lemma_dist_order_is_numeric,
    lemma_peer_order_is_numeric,
};
use rayon::iter::{IntoParallelRefIterator, ParallelBridge, ParallelIterator};
use rand::seq::SliceRandom;
use std::cmp::Ordering;
use vstd::std_specs::cmp::{PartialEqSpecImpl, PartialOrdSpecImpl};
use rayon::slice::ParallelSliceMut;

verus! {

/// A peer and its distance from the key that the route was computed for.
#[derive(Debug, Clone, Copy)]
pub struct Route(pub PeerId, pub Distance);

impl PartialEq for Route {
    fn eq(&self, other: &Self) -> (r: bool) {
        self.1 == other.1
    }
}

impl PartialEqSpecImpl for Route {
    open spec fn obeys_eq_spec() -> bool {
        true
    }

    open spec fn eq_spec(&self, other: &Route) -> bool {
        self.1 == other.1
    }
}

impl Eq for Route {
}

impl PartialOrd for Route {
    fn partial_cmp(&self, other: &Self) -> (r: Option<Ordering>) {
        let ord = if self.1.less_than(&other.1) {
            Ordering::Less
        } else if self.1 == other.1 {
            Ordering::Equal
        } else {
            Ordering::Greater
        };
        Some(ord)
    }
}

impl PartialOrdSpecImpl for Route {
    open spec fn obeys_partial_cmp_spec() -> bool {
        true
    }

    open spec fn partial_cmp_spec(&self, other: &Route) -> Option<Ordering> {
        if dist_lt(self.1, other.1) {
            Some(Ordering::Less)
        } else if self.1 == other.1 {
            Some(Ordering::Equal)
        } else {
            Some(Ordering::Greater)
        }
    }
}

/// Routes are ordered by the numeric value of their distances: a route is
/// less than, equal to or greater than another exactly when its distance is.
pub proof fn lemma_route_order_is_numeric(a: Route, b: Route)
    ensures
        (vstd::std_specs::cmp::PartialOrdSpec::partial_cmp_spec(&a, &b) == Some(Ordering::Less)) <==> distance_value(a.1) < distance_value(b.1),
        (vstd::std_specs::cmp::PartialOrdSpec::partial_cmp_spec(&a, &b) == Some(Ordering::Equal)) <==> distance_value(a.1) == distance_value(b.1),
        (vstd::std_specs::cmp::PartialOrdSpec::partial_cmp_spec(&a, &b) == Some(Ordering::Greater)) <==> distance_value(a.1) > distance_value(b.1),
        vstd::std_specs::cmp::PartialEqSpec::eq_spec(&a, &b) <==> distance_value(a.1) == distance_value(b.1),
{
    lemma_dist_order_is_numeric(a.1, b.1);
}

/// The route to `peer` as seen from `search`.
pub open spec fn route_to(search: PeerId, peer: PeerId) -> Route {
    Route(peer, xor_distance(search, peer))
}

/// The routes from `search` to each peer of `list`, in the order of `list`.
pub open spec fn routes_to(search: PeerId, list: Seq<Route>) -> Seq<Route> {
    list.map_values(|x: Route| route_to(search, x.0))
}

/// The largest distance.
pub open spec fn max_distance() -> Distance {
    Distance(u64::MAX, u64::MAX, u64::MAX, u64::MAX)
}

/// `s` is ordered by strictly increasing distance.
pub open spec fn strictly_increasing(s: Seq<Route>) -> bool {
    forall|a: int, b: int| 0 <= a < b < s.len() ==> dist_lt(s[a].1, s[b].1)
}

/// `r` is the list of the `k` closest distinct routes among `m`: it is ordered
/// by strictly increasing distance, it holds only routes of `m`, and a route
/// of `m` that it lacks is farther than each of its `k` routes.
pub open spec fn k_closest_of(m: Seq<Route>, k: nat, r: Seq<Route>) -> bool {
    &&& r.len() <= k
    &&& strictly_increasing(r)
    &&& forall|a: int| 0 <= a < r.len() ==> m.contains(#[trigger] r[a])
    &&& forall|j: int|
        0 <= j < m.len() ==> r.contains(#[trigger] m[j]) || (r.len() == k && forall|a: int|
            0 <= a < r.len() ==> dist_lt(#[trigger] r[a].1, m[j].1))
}

/// `r` is the route that a search over `m` starting from `router_id` at the
/// largest distance ends with: no route of `m` is closer than `r`, and `r` is
/// either the first of the closest routes, when it is closer than the largest
/// distance, or `router_id` at the largest distance, when every route of `m`
/// is at the largest distance.
pub open spec fn closest_route_of(router_id: PeerId, m: Seq<Route>, r: Route) -> bool {
    &&& forall|j: int| 0 <= j < m.len() ==> dist_le(r.1, #[trigger] m[j].1)
    &&& (r == Route(router_id, max_distance()) && forall|j: int| 0 <= j < m.len() ==> #[trigger] m[j].1 == max_distance())
        || exists|j: int|
        0 <= j < m.len() && r == #[trigger] m[j] && dist_lt(r.1, max_distance()) && forall|i: int|
            0 <= i < j ==> dist_lt(r.1, m[i].1)
}

/// A route's sort key: its distance limbs, then its peer limbs.
pub type RouteKey = (u64, u64, u64, u64, u64, u64, u64, u64);

spec fn key_of(r: Route) -> RouteKey {
    (r.1.0, r.1.1, r.1.2, r.1.3, r.0.0, r.0.1, r.0.2, r.0.3)
}

spec fn route_of(k: RouteKey) -> Route {
    Route(PeerId(k.4, k.5, k.6, k.7), Distance(k.0, k.1, k.2, k.3))
}

/// The lexicographic order of tuples of limbs.
spec fn key_le(a: RouteKey, b: RouteKey) -> bool {
    ||| dist_lt(route_of(a).1, route_of(b).1)
    ||| route_of(a).1 == route_of(b).1 && peer_lt(route_of(a).0, route_of(b).0)
    ||| a == b
}

/// The route from the key `search` to `peer`.
pub(crate) fn route_from(search: &Key, peer: &PeerId) -> (r: Route)
    ensures
        r == route_to(search.peer(), *peer),
{
    Route(*peer, search.distance(&Key::from(*peer)))
}

/// Maps each route of `peer_list` to the route from `search_key` to its
/// peer, with rayon's `par_iter().map(..).collect()`; an indexed parallel
/// iterator collects into a vector in the order of its input.
#[verifier::external_body]
fn par_routes_to(peer_list: &Vec<Route>, search_key: &Key) -> (r: Vec<Route>)
    ensures
        r@ == routes_to(search_key.peer(), peer_list@),
{
    peer_list.par_iter().map(|route| route_from(search_key, &route.0)).collect()
}

/// Sorts route keys with rayon's `par_sort`: the result is a permutation of
/// the input in the lexicographic order of tuples.
#[verifier::external_body]
fn par_sort_keys(keys: &mut Vec<RouteKey>)
    ensures
        final(keys)@.to_multiset() == old(keys)@.to_multiset(),
        forall|i: int, j: int| 0 <= i < j < final(keys)@.len() ==> key_le(final(keys)@[i], final(keys)@[j]),
{
    keys.par_sort();
}

/// Sorts route keys with the standard library's stable `slice::sort`: the
/// result is a permutation of the input in the lexicographic order of
/// tuples.
#[verifier::external_body]
fn sort_keys(keys: &mut Vec<RouteKey>)
    ensures
        final(keys)@.to_multiset() == old(keys)@.to_multiset(),
        forall|i: int, j: int| 0 <= i < j < final(keys)@.len() ==> key_le(final(keys)@[i], final(keys)@[j]),
{
    keys.sort();
}

/// Two routes from the same key with the same distance are the same route.
proof fn lemma_same_distance_same_route(search: PeerId, a: PeerId, b: PeerId)
    requires
        route_to(search, a).1 == route_to(search, b).1,
    ensures
        route_to(search, a) == route_to(search, b),
{
    lemma_distance_unidirectional(search, a, b);
}

/// A router: a peer and the routes it knows.
pub struct Router {
    router_id: PeerId,
    pub peer_list: Vec<Route>,
    key: Key,
}

impl PartialEq for Router {
    fn eq(&self, other: &Self) -> (r: bool) {
        self.router_id == other.router_id
    }
}

impl PartialEqSpecImpl for Router {
    open spec fn obeys_eq_spec() -> bool {
        true
    }

    open spec fn eq_spec(&self, other: &Router) -> bool {
        self.router_id() == other.router_id()
    }
}

impl Eq for Router {
}

impl PartialOrd for Router {
    fn partial_cmp(&self, other: &Self) -> (r: Option<Ordering>) {
        let ord = if self.router_id.less_than(&other.router_id) {
            Ordering::Less
        } else if self.router_id == other.router_id {
            Ordering::Equal
        } else {
            Ordering::Greater
        };
        Some(ord)
    }
}

impl PartialOrdSpecImpl for Router {
    open spec fn obeys_partial_cmp_spec() -> bool {
        true
    }

    open spec fn partial_cmp_spec(&self, other: &Router) -> Option<Ordering> {
        if peer_lt(self.router_id(), other.router_id()) {
            Some(Ordering::Less)
        } else if self.router_id() == other.router_id() {
            Some(Ordering::Equal)
        } else {
            Some(Ordering::Greater)
        }
    }
}

/// Routers are ordered by the numeric value of their identifiers: a router
/// is less than, equal to or greater than another exactly when its
/// identifier is.
pub proof fn lemma_router_order_is_numeric(a: Router, b: Router)
    ensures
        (vstd::std_specs::cmp::PartialOrdSpec::partial_cmp_spec(&a, &b) == Some(Ordering::Less)) <==> peer_value(a.router_id()) < peer_value(b.router_id()),
        (vstd::std_specs::cmp::PartialOrdSpec::partial_cmp_spec(&a, &b) == Some(Ordering::Equal)) <==> peer_value(a.router_id()) == peer_value(
            b.router_id(),
        ),
        (vstd::std_specs::cmp::PartialOrdSpec::partial_cmp_spec(&a, &b) == Some(Ordering::Greater)) <==> peer_value(a.router_id()) > peer_value(
            b.router_id(),
        ),
        vstd::std_specs::cmp::PartialEqSpec::eq_spec(&a, &b) <==> peer_value(a.router_id()) == peer_value(b.router_id()),
{
    lemma_peer_order_is_numeric(a.router_id(), b.router_id());
    lemma_peer_order_is_numeric(b.router_id(), a.router_id());
}

impl Router {
    /// The peer that routes.
    pub closed spec fn router_id(&self) -> PeerId {
        self.router_id
    }

    /// The routes the router knows.
    pub closed spec fn peers(&self) -> Seq<Route> {
        self.peer_list@
    }

    /// The key of the peer that routes.
    pub closed spec fn router_key(&self) -> Key {
        self.key
    }

    /// A router for `router_id` that knows `peer_list`.
    pub fn from(router_id: PeerId, peer_list: Vec<Route>) -> (r: Router)
        ensures
            r.router_id() == router_id,
            r.peers() == peer_list@,
            r.router_key().peer() == router_id,
    {
        Router { router_id, peer_list, key: Key::from(router_id) }
    }

    /// Sorts the routes of the router by distance; the router is consumed,
    /// so the sorted list is dropped with it.
    pub fn sort(self) {
        let mut keys = route_keys(&self.peer_list);
        sort_keys(&mut keys);
    }

    /// The known peer closest to `peer_id`, with its distance.
    ///
    /// The search starts from the router itself at the largest distance and
    /// moves to a peer only when the peer is strictly closer, so the first
    /// closest peer wins and the router is kept when no peer is closer than
    /// the largest distance.
    pub fn closest(self, peer_id: PeerId) -> (r: Route)
        ensures
            closest_route_of(self.router_id(), routes_to(peer_id, self.peers()), r),
            forall|j: int|
                0 <= j < self.peers().len() ==> distance_value(r.1) <= distance_value(
                    #[trigger] routes_to(peer_id, self.peers())[j].1,
                ),
    {
        let ghost m = routes_to(peer_id, self.peer_list@);
        let search_key = Key::from(peer_id);
        let mut min = Route(self.router_id, Distance::maximum());
        let mut i: usize = 0;
        while i < self.peer_list.len()
            invariant
                0 <= i <= self.peer_list@.len(),
                m == routes_to(peer_id, self.peer_list@),
                search_key.peer() == peer_id,
                forall|j: int| 0 <= j < i ==> dist_le(min.1, #[trigger] m[j].1),
                (min == Route(self.router_id, max_distance()) && forall|j: int|
                    0 <= j < i ==> #[trigger] m[j].1 == max_distance()) || exists|j: int|
                    0 <= j < i && min == #[trigger] m[j] && dist_lt(min.1, max_distance()) && forall|i2: int|
                        0 <= i2 < j ==> dist_lt(min.1, m[i2].1),
            decreases self.peer_list@.len() - i,
        {
            let key_other = Key::from(self.peer_list[i].0);
            let distance = search_key.distance(&key_other);
            proof {
                assert(m[i as int] == Route(self.peer_list@[i as int].0, distance));
            }
            if !min.1.less_or_equal(&distance) {
                proof {
                    lemma_dist_total(min.1, distance);
                    assert forall|j: int| 0 <= j < i + 1 implies dist_le(distance, #[trigger] m[j].1) by {
                        if j < i {
                            if dist_lt(min.1, m[j].1) {
                                lemma_dist_lt_transitive(distance, min.1, m[j].1);
                            }
                        }
                    }
                    assert forall|i2: int| 0 <= i2 < i implies dist_lt(distance, m[i2].1) by {
                        if dist_lt(min.1, m[i2].1) {
                            lemma_dist_lt_transitive(distance, min.1, m[i2].1);
                        }
                    }
                    if dist_lt(min.1, max_distance()) {
                        lemma_dist_lt_transitive(distance, min.1, max_distance());
                    }
                    assert(min.1 == max_distance() || dist_lt(min.1, max_distance()));
                }
                min = Route(self.peer_list[i].0, distance);
            } else {
                proof {
                    lemma_dist_total(min.1, distance);
                    assert(dist_le(distance, max_distance()));
                    if min == Route(self.router_id, max_distance()) {
                        lemma_dist_total(distance, max_distance());
                    }
                }
            }
            i = i + 1;
        }
        proof {
            assert(self.peers() == self.peer_list@);
            if !(min == Route(self.router_id, max_distance()) && forall|j: int|
                0 <= j < i ==> #[trigger] m[j].1 == max_distance()) {
                let j = choose|j: int|
                    0 <= j < i && min == #[trigger] m[j] && dist_lt(min.1, max_distance()) && forall|i2: int|
                        0 <= i2 < j ==> dist_lt(min.1, m[i2].1);
                assert(min == routes_to(peer_id, self.peers())[j]);
            }
            assert forall|j: int| 0 <= j < self.peers().len() implies distance_value(min.1) <= distance_value(
                #[trigger] routes_to(peer_id, self.peers())[j].1,
            ) by {
                lemma_dist_order_is_numeric(min.1, m[j].1);
            }
        }
        min
    }

    /// The `k` routes closest to `peer_id`, closest first, one per distance.
    ///
    /// The distances from `peer_id` to the known peers are computed in
    /// parallel, sorted, deduplicated and the first `k` kept.
    pub fn k_closest(self, peer_id: PeerId, k: usize) -> (r: Vec<Route>)
        ensures
            k_closest_of(routes_to(peer_id, self.peers()), k as nat, r@),
            forall|a: int, b: int|
                0 <= a < b < r@.len() ==> distance_value(#[trigger] r@[a].1) < distance_value(#[trigger] r@[b].1),
    {
        let search_key = Key::from(peer_id);
        let routes = par_routes_to(&self.peer_list, &search_key);
        let ghost m = routes@;
        let mut keys = route_keys(&routes);
        let ghost unsorted = keys@;
        par_sort_keys(&mut keys);
        proof {
            broadcast use vstd::seq_lib::group_to_multiset_ensures;

            assert forall|x: int| 0 <= x < keys@.len() implies m.contains(route_of(#[trigger] keys@[x])) by {
                assert(keys@.contains(keys@[x]));
                assert(keys@.to_multiset().count(keys@[x]) > 0);
                assert(unsorted.contains(keys@[x]));
                let j = choose|j: int| 0 <= j < unsorted.len() && unsorted[j] == keys@[x];
                assert(route_of(key_of(m[j])) == m[j]);
            }
        }
        let mut out: Vec<Route> = Vec::new();
        let mut i: usize = 0;
        while i < keys.len() && out.len() < k
            invariant
                0 <= i <= keys@.len(),
                out@.len() <= k,
                m == routes_to(peer_id, self.peer_list@),
                forall|a: int, b: int| 0 <= a < b < keys@.len() ==> key_le(keys@[a], keys@[b]),
                forall|x: int| 0 <= x < keys@.len() ==> m.contains(route_of(#[trigger] keys@[x])),
                strictly_increasing(out@),
                forall|a: int| 0 <= a < out@.len() ==> m.contains(#[trigger] out@[a]),
                forall|x: int| 0 <= x < i ==> out@.contains(route_of(#[trigger] keys@[x])),
                i > 0 ==> out@.len() > 0 && out@.last() == route_of(keys@[i - 1]),
                out@.len() > 0 ==> i > 0,
            decreases keys@.len() - i,
        {
            let kk = keys[i];
            let rt = Route(PeerId(kk.4, kk.5, kk.6, kk.7), Distance(kk.0, kk.1, kk.2, kk.3));
            proof {
                assert(rt == route_of(keys@[i as int]));
                assert(m.contains(rt));
            }
            if out.len() == 0 || !(out[out.len() - 1].1 == rt.1) {
                proof {
                    if out@.len() > 0 {
                        let last = out@.last();
                        assert(key_le(keys@[i - 1], keys@[i as int]));
                        lemma_dist_total(last.1, rt.1);
                        assert(dist_lt(last.1, rt.1));
                        assert forall|a: int| 0 <= a < out@.len() implies dist_lt(out@[a].1, rt.1) by {
                            if a < out@.len() - 1 {
                                lemma_dist_lt_transitive(out@[a].1, last.1, rt.1);
                            }
                        }
                    }
                }
                let ghost old_out = out@;
                out.push(rt);
                proof {
                    assert forall|x: int| 0 <= x < i + 1 implies out@.contains(route_of(#[trigger] keys@[x])) by {
                        if x < i {
                            assert(old_out.contains(route_of(keys@[x])));
                            let w = choose|w: int| 0 <= w < old_out.len() && old_out[w] == route_of(keys@[x]);
                            assert(out@[w] == route_of(keys@[x]));
                        } else {
                            assert(out@[out@.len() - 1] == rt);
                        }
                    }
                }
            } else {
                proof {
                    let last = out@.last();
                    let j1 = choose|j: int| 0 <= j < m.len() && m[j] == last;
                    let j2 = choose|j: int| 0 <= j < m.len() && m[j] == rt;
                    lemma_same_distance_same_route(peer_id, self.peer_list@[j1].0, self.peer_list@[j2].0);
                    assert(last == rt);
                    assert(out@[out@.len() - 1] == rt);
                }
            }
            i = i + 1;
        }
        proof {
            broadcast use vstd::seq_lib::group_to_multiset_ensures;

            assert forall|j: int| 0 <= j < m.len() implies out@.contains(#[trigger] m[j]) || (out@.len() == k
                && forall|a: int| 0 <= a < out@.len() ==> dist_lt(#[trigger] out@[a].1, m[j].1)) by {
                let e = m[j];
                assert(unsorted[j] == key_of(e));
                assert(unsorted.contains(key_of(e)));
                assert(unsorted.to_multiset().count(key_of(e)) > 0);
                assert(keys@.contains(key_of(e)));
                let x = choose|x: int| 0 <= x < keys@.len() && keys@[x] == key_of(e);
                assert(route_of(keys@[x]) == e);
                if x >= i {
                    assert(out@.len() == k);
                    if k > 0 {
                        let last = out@.last();
                        assert(key_le(keys@[i - 1], keys@[x]));
                        lemma_dist_total(last.1, e.1);
                        if last.1 == e.1 {
                            let j1 = choose|jj: int| 0 <= jj < m.len() && m[jj] == last;
                            lemma_same_distance_same_route(peer_id, self.peer_list@[j1].0, self.peer_list@[j].0);
                            assert(out@[out@.len() - 1] == e);
                        } else {
                            assert forall|a: int| 0 <= a < out@.len() implies dist_lt(#[trigger] out@[a].1, e.1) by {
                                if a < out@.len() - 1 {
                                    lemma_dist_lt_transitive(out@[a].1, last.1, e.1);
                                }
                            }
                        }
                    }
                }
            }
        }
        proof {
            assert forall|a: int, b: int| 0 <= a < b < out@.len() implies distance_value(#[trigger] out@[a].1)
                < distance_value(#[trigger] out@[b].1) by {
                lemma_dist_order_is_numeric(out@[a].1, out@[b].1);
            }
        }
        out
    }
}

/// The sort keys of the routes of `routes`, in order.
fn route_keys(routes: &Vec<Route>) -> (keys: Vec<RouteKey>)
    ensures
        keys@.len() == routes@.len(),
        forall|j: int| 0 <= j < routes@.len() ==> keys@[j] == key_of(#[trigger] routes@[j]),
{
    let mut keys: Vec<RouteKey> = Vec::new();
    let mut i: usize = 0;
    while i < routes.len()
        invariant
            0 <= i <= routes@.len(),
            keys@.len() == i,
            forall|j: int| 0 <= j < i ==> keys@[j] == key_of(#[trigger] routes@[j]),
        decreases routes@.len() - i,
    {
        let rt = routes[i];
        keys.push((rt.1.0, rt.1.1, rt.1.2, rt.1.3, rt.0.0, rt.0.1, rt.0.2, rt.0.3));
        i = i + 1;
    }
    keys
}


/// How many routes a router keeps for each peer of a routing table.
pub const ROUTER_LIST_SIZE: usize = 20;

/// Whether the routes of `m1` and `m2` are the same.
pub open spec fn same_members(m1: Seq<Route>, m2: Seq<Route>) -> bool {
    forall|x: Route| m1.contains(x) <==> m2.contains(x)
}

/// Which routes are the `k` closest depends only on which routes there are.
pub proof fn lemma_k_closest_of_members(m1: Seq<Route>, m2: Seq<Route>, k: nat, r: Seq<Route>)
    requires
        same_members(m1, m2),
        k_closest_of(m1, k, r),
    ensures
        k_closest_of(m2, k, r),
{
    assert forall|j: int| 0 <= j < m2.len() implies r.contains(#[trigger] m2[j]) || (r.len() == k
        && forall|a: int| 0 <= a < r.len() ==> dist_lt(#[trigger] r[a].1, m2[j].1)) by {
        assert(m2.contains(m2[j]));
        assert(m1.contains(m2[j]));
        let i = choose|i: int| 0 <= i < m1.len() && m1[i] == m2[j];
        assert(m1[i] == m2[j]);
    }
    assert forall|a: int| 0 <= a < r.len() implies m2.contains(#[trigger] r[a]) by {
        assert(m1.contains(r[a]));
    }
}

/// Chooses `amount` peers of `collection` (all of them if it holds fewer)
/// at distinct random positions, in random order, with `rand`'s
/// `SliceRandom::choose_multiple` and the thread-local generator.
#[verifier::external_body]
fn choose_multiple_peers(collection: &Vec<PeerId>, amount: usize) -> (r: Vec<PeerId>)
    ensures
        r@.len() == vstd::math::min(amount as int, collection@.len() as int),
        r@.to_multiset().subset_of(collection@.to_multiset()),
{
    let rng = &mut rand::thread_rng();
    collection.choose_multiple(rng, amount).cloned().collect()
}

/// The routes from `router_key` to each peer of `sample`, computed with
/// rayon's `par_bridge().map(..).collect()`, which may reorder them.
#[verifier::external_body]
fn par_bridge_routes(sample: Vec<PeerId>, router_key: &Key) -> (r: Vec<Route>)
    ensures
        r@.to_multiset() == sample@.map_values(|p: PeerId| route_to(router_key.peer(), p)).to_multiset(),
{
    sample.into_iter().par_bridge().map(|peer_id| route_from(router_key, &peer_id)).collect()
}

/// The routes from `peer` to each peer of `sample`, in the order of `sample`.
pub open spec fn sample_routes(peer: PeerId, sample: Seq<PeerId>) -> Seq<Route> {
    sample.map_values(|p: PeerId| route_to(peer, p))
}

/// The routes that a router keeps for `router_id` out of a sample of peers:
/// the `ROUTER_LIST_SIZE` closest distinct routes from `router_id` to the
/// sampled peers.
pub fn routes_for(router_id: PeerId, sample: Vec<PeerId>) -> (r: Vec<Route>)
    ensures
        k_closest_of(sample_routes(router_id, sample@), ROUTER_LIST_SIZE as nat, r@),
{
    let ghost m = sample@.map_values(|p: PeerId| route_to(router_id, p));
    let router_key = Key::from(router_id);
    let candidate_list = par_bridge_routes(sample, &router_key);
    let ghost c = candidate_list@;
    let router = Router::from(router_id, candidate_list);
    let r = router.k_closest(router_id, ROUTER_LIST_SIZE);
    proof {
        broadcast use vstd::seq_lib::group_to_multiset_ensures;

        let rc = routes_to(router_id, c);
        assert forall|x: Route| rc.contains(x) <==> m.contains(x) by {
            if rc.contains(x) {
                let i = choose|i: int| 0 <= i < rc.len() && rc[i] == x;
                assert(c.contains(c[i]));
                assert(c.to_multiset().count(c[i]) > 0);
                assert(m.contains(c[i]));
                let j = choose|j: int| 0 <= j < m.len() && m[j] == c[i];
                assert(rc[i] == route_to(router_id, c[i].0));
                assert(c[i] == route_to(router_id, sample@[j]));
            }
            if m.contains(x) {
                assert(m.to_multiset().count(x) > 0);
                assert(c.contains(x));
                let i = choose|i: int| 0 <= i < c.len() && c[i] == x;
                let j = choose|j: int| 0 <= j < m.len() && m[j] == x;
                assert(x == route_to(router_id, sample@[j]));
                assert(rc[i] == route_to(router_id, c[i].0));
                assert(rc[i] == x);
            }
        }
        lemma_k_closest_of_members(rc, m, ROUTER_LIST_SIZE as nat, r@);
    }
    r
}

/// `rs` is the route list of `peer` for some sample of `collection`: the
/// sample holds `router_size` peers (all of them if the collection is
/// smaller), at distinct positions of the collection, and `rs` is the
/// `ROUTER_LIST_SIZE` closest distinct routes from `peer` to the sample.
pub open spec fn routed_from_sample(peer: PeerId, collection: Seq<PeerId>, router_size: nat, rs: Seq<Route>) -> bool {
    exists|sample: Seq<PeerId>|
        sample.len() == vstd::math::min(router_size as int, collection.len() as int)
            && sample.to_multiset().subset_of(collection.to_multiset()) && k_closest_of(
            #[trigger] sample_routes(peer, sample),
            ROUTER_LIST_SIZE as nat,
            rs,
        )
}

/// A route list that a routing table may hold for `peer`: at most
/// `ROUTER_LIST_SIZE` routes by strictly increasing distance, each to a peer
/// of `collection` and carrying that peer's distance from `peer`.
pub open spec fn consistent_router_list(peer: PeerId, collection: Seq<PeerId>, rs: Seq<Route>) -> bool {
    &&& rs.len() <= ROUTER_LIST_SIZE
    &&& strictly_increasing(rs)
    &&& forall|a: int| 0 <= a < rs.len() ==> #[trigger] rs[a] == route_to(peer, rs[a].0)
    &&& forall|a: int| 0 <= a < rs.len() ==> collection.contains(#[trigger] rs[a].0)
}

spec fn holds_peer(s: Seq<(PeerId, Vec<Route>)>, p: PeerId) -> bool {
    exists|i: int| 0 <= i < s.len() && #[trigger] s[i].0 == p
}

spec fn index_of_peer(s: Seq<(PeerId, Vec<Route>)>, p: PeerId) -> int {
    choose|i: int| 0 <= i < s.len() && #[trigger] s[i].0 == p
}

spec fn entries_map(s: Seq<(PeerId, Vec<Route>)>) -> Map<PeerId, Seq<Route>> {
    Map::new(|p: PeerId| holds_peer(s, p), |p: PeerId| s[index_of_peer(s, p)].1@)
}

spec fn distinct_peers(s: Seq<(PeerId, Vec<Route>)>) -> bool {
    forall|i: int, j: int| 0 <= i < j < s.len() ==> s[i].0 != s[j].0
}

proof fn lemma_index_of_peer(s: Seq<(PeerId, Vec<Route>)>, i: int)
    requires
        distinct_peers(s),
        0 <= i < s.len(),
    ensures
        holds_peer(s, s[i].0),
        index_of_peer(s, s[i].0) == i,
        entries_map(s).contains_key(s[i].0),
        entries_map(s)[s[i].0] == s[i].1@,
{
    let p = s[i].0;
    assert(holds_peer(s, p));
    let j = index_of_peer(s, p);
    if j != i {
        if j < i {
            assert(s[j].0 != s[i].0);
        } else {
            assert(s[i].0 != s[j].0);
        }
    }
}

/// A map from peers to their route lists, with at most one entry per peer.
pub struct RouteTable {
    entries: Vec<(PeerId, Vec<Route>)>,
}

impl View for RouteTable {
    type V = Map<PeerId, Seq<Route>>;

    closed spec fn view(&self) -> Map<PeerId, Seq<Route>> {
        entries_map(self.entries@)
    }
}

impl RouteTable {
    #[verifier::type_invariant]
    spec fn entries_distinct(&self) -> bool {
        distinct_peers(self.entries@)
    }

    /// An empty table.
    pub fn new() -> (r: Self)
        ensures
            r@ == Map::<PeerId, Seq<Route>>::empty(),
    {
        let r = RouteTable { entries: Vec::new() };
        proof {
            assert(r@ =~= Map::<PeerId, Seq<Route>>::empty());
        }
        r
    }

    fn position(&self, peer: &PeerId) -> (r: Option<usize>)
        ensures
            r is None ==> forall|i: int| 0 <= i < self.entries@.len() ==> self.entries@[i].0 != *peer,
            r is Some ==> r->Some_0 < self.entries@.len() && self.entries@[r->Some_0 as int].0 == *peer,
    {
        let mut i: usize = 0;
        while i < self.entries.len()
            invariant
                0 <= i <= self.entries@.len(),
                forall|k: int| 0 <= k < i ==> self.entries@[k].0 != *peer,
            decreases self.entries@.len() - i,
        {
            if self.entries[i].0 == *peer {
                return Some(i);
            }
            i = i + 1;
        }
        None
    }

    /// The routes of `peer`, if the table has an entry for it.
    pub fn get(&self, peer: &PeerId) -> (r: Option<&Vec<Route>>)
        ensures
            r is Some <==> self@.contains_key(*peer),
            r is Some ==> r->Some_0@ == self@[*peer],
    {
        proof {
            use_type_invariant(self);
        }
        match self.position(peer) {
            Some(i) => {
                proof {
                    lemma_index_of_peer(self.entries@, i as int);
                }
                Some(&self.entries[i].1)
            },
            None => {
                proof {
                    if holds_peer(self.entries@, *peer) {
                        let j = choose|j: int| 0 <= j < self.entries@.len() && #[trigger] self.entries@[j].0 == *peer;
                        assert(self.entries@[j].0 != *peer);
                    }
                }
                None
            },
        }
    }

    /// Sets the routes of `peer`, replacing those it had.
    pub fn insert(&mut self, peer: PeerId, routes: Vec<Route>)
        ensures
            final(self)@ == old(self)@.insert(peer, routes@),
    {
        proof {
            use_type_invariant(&*self);
        }
        let ghost old_s = self.entries@;
        let ghost rv = routes@;
        match self.position(&peer) {
            Some(i) => {
                let mut entries: Vec<(PeerId, Vec<Route>)> = Vec::new();
                std::mem::swap(&mut entries, &mut self.entries);
                entries.set(i, (peer, routes));
                proof {
                    let s = entries@;
                    assert(distinct_peers(s)) by {
                        assert forall|a: int, b: int| 0 <= a < b < s.len() implies s[a].0 != s[b].0 by {
                            assert(old_s[a].0 != old_s[b].0);
                        }
                    }
                    assert forall|j: int| 0 <= j < s.len() && old_s[j].0 == peer implies j == i by {
                        if j != i {
                            assert(old_s[j].0 != old_s[i as int].0);
                        }
                    }
                    assert(s[i as int].0 == peer);
                    lemma_entries_set(old_s, s, peer, rv);
                }
                self.entries = entries;
            },
            None => {
                let mut entries: Vec<(PeerId, Vec<Route>)> = Vec::new();
                std::mem::swap(&mut entries, &mut self.entries);
                entries.push((peer, routes));
                proof {
                    let s = entries@;
                    assert(distinct_peers(s)) by {
                        assert forall|a: int, b: int| 0 <= a < b < s.len() implies s[a].0 != s[b].0 by {
                            if b < old_s.len() {
                                assert(old_s[a].0 != old_s[b].0);
                            } else {
                                assert(s[a] == old_s[a]);
                            }
                        }
                    }
                    assert(s[old_s.len() as int].0 == peer);
                    lemma_entries_set(old_s, s, peer, rv);
                }
                self.entries = entries;
            },
        }
    }
}

/// An entry list in which the entry of `peer` was replaced, or appended,
/// with routes `rv`, and every other entry kept in place, maps as the old
/// list with `peer` set to `rv`.
proof fn lemma_entries_set(
    old_s: Seq<(PeerId, Vec<Route>)>,
    s: Seq<(PeerId, Vec<Route>)>,
    peer: PeerId,
    rv: Seq<Route>,
)
    requires
        distinct_peers(old_s),
        distinct_peers(s),
        old_s.len() <= s.len(),
        holds_peer(s, peer),
        forall|j: int| 0 <= j < old_s.len() && old_s[j].0 != peer ==> #[trigger] s[j] == old_s[j],
        forall|j: int| 0 <= j < s.len() && (j >= old_s.len() || old_s[j].0 == peer) ==> #[trigger] s[j].0 == peer && s[j].1@ == rv,
    ensures
        entries_map(s) == entries_map(old_s).insert(peer, rv),
{
    let target = entries_map(old_s).insert(peer, rv);
    assert forall|p: PeerId| #[trigger] entries_map(s).contains_key(p) <==> target.contains_key(p) by {
        if holds_peer(old_s, p) && p != peer {
            let j = choose|j: int| 0 <= j < old_s.len() && #[trigger] old_s[j].0 == p;
            assert(s[j] == old_s[j]);
            assert(s[j].0 == p);
        }
        if holds_peer(s, p) && p != peer {
            let j = choose|j: int| 0 <= j < s.len() && #[trigger] s[j].0 == p;
            if j >= old_s.len() || old_s[j].0 == peer {
                assert(s[j].0 == peer);
            } else {
                assert(old_s[j].0 == p);
            }
        }
    }
    assert forall|p: PeerId| #[trigger] entries_map(s).contains_key(p) implies entries_map(s)[p] == target[p] by {
        let j = choose|j: int| 0 <= j < s.len() && #[trigger] s[j].0 == p;
        lemma_index_of_peer(s, j);
        if j < old_s.len() && old_s[j].0 != peer {
            assert(old_s[j] == s[j]);
            lemma_index_of_peer(old_s, j);
        } else {
            assert(s[j].0 == peer);
        }
    }
    assert(entries_map(s) =~= target);
}

/// The error that building routes may report; routing never fails.
#[derive(Debug, Clone, Copy, PartialEq, Eq)]
pub struct RoutingError;

/// A distributed hash table: the routes that each peer keeps.
pub struct DHT {
    pub routes: RouteTable,
}

impl DHT {
    /// A table without routes.
    pub fn new() -> (r: Self)
        ensures
            r.routes@ == Map::<PeerId, Seq<Route>>::empty(),
    {
        DHT { routes: RouteTable::new() }
    }

    /// Builds the routes of every peer of `collection`.
    ///
    /// For each peer in turn, `router_size` peers of the collection are
    /// sampled at random, and the peer keeps the `ROUTER_LIST_SIZE` closest
    /// of them (see [`routes_for`]); a peer that occurs twice keeps the routes
    /// of its last occurrence. Routes held before are discarded.
    pub fn routing(self, collection: Vec<PeerId>, router_size: usize) -> (r: Result<Self, RoutingError>)
        ensures
            r is Ok,
            forall|p: PeerId| #[trigger] r->Ok_0.routes@.contains_key(p) <==> collection@.contains(p),
            forall|p: PeerId|
                #[trigger] r->Ok_0.routes@.contains_key(p) ==> routed_from_sample(
                    p,
                    collection@,
                    router_size as nat,
                    r->Ok_0.routes@[p],
                ) && consistent_router_list(p, collection@, r->Ok_0.routes@[p]),
    {
        let mut dht = self;
        let mut table = RouteTable::new();
        let mut i: usize = 0;
        while i < collection.len()
            invariant
                0 <= i <= collection@.len(),
                forall|p: PeerId|
                    #[trigger] table@.contains_key(p) <==> exists|j: int| 0 <= j < i && collection@[j] == p,
                forall|p: PeerId| #[trigger] table@.contains_key(p) ==> routed_from_sample(
                    p,
                    collection@,
                    router_size as nat,
                    table@[p],
                ) && consistent_router_list(p, collection@, table@[p]),
            decreases collection@.len() - i,
        {
            let router_id = collection[i];
            let sample = choose_multiple_peers(&collection, router_size);
            let ghost sv = sample@;
            let router_list = routes_for(router_id, sample);
            proof {
                let m = sv.map_values(|p: PeerId| route_to(router_id, p));
                let rs = router_list@;
                broadcast use vstd::seq_lib::group_to_multiset_ensures;

                assert forall|a: int| 0 <= a < rs.len() implies #[trigger] rs[a] == route_to(router_id, rs[a].0)
                    && collection@.contains(rs[a].0) by {
                    assert(m.contains(rs[a]));
                    let j = choose|j: int| 0 <= j < m.len() && m[j] == rs[a];
                    assert(m[j] == route_to(router_id, sv[j]));
                    assert(sv.contains(sv[j]));
                    assert(sv.to_multiset().count(sv[j]) > 0);
                    assert(collection@.to_multiset().count(sv[j]) > 0);
                }
                assert(k_closest_of(m, ROUTER_LIST_SIZE as nat, rs));
                assert(m == sample_routes(router_id, sv));
                assert(routed_from_sample(router_id, collection@, router_size as nat, rs));
            }
            let ghost old_table = table@;
            table.insert(router_id, router_list);
            proof {
                assert forall|p: PeerId| #[trigger] table@.contains_key(p) <==> exists|j: int|
                    0 <= j < i + 1 && collection@[j] == p by {
                    if p == router_id {
                        assert(collection@[i as int] == p);
                    } else if old_table.contains_key(p) {
                        let j = choose|j: int| 0 <= j < i && collection@[j] == p;
                        assert(0 <= j < i + 1 && collection@[j] == p);
                    } else if exists|j: int| 0 <= j < i + 1 && collection@[j] == p {
                        let j = choose|j: int| 0 <= j < i + 1 && collection@[j] == p;
                        assert(j != i);
                    }
                }
            }
            i = i + 1;
        }
        proof {
            assert forall|p: PeerId| #[trigger] table@.contains_key(p) <==> collection@.contains(p) by {
                if collection@.contains(p) {
                    let j = choose|j: int| 0 <= j < collection@.len() && collection@[j] == p;
                    assert(0 <= j < i && collection@[j] == p);
                }
            }
        }
        dht.routes = table;
        Ok(dht)
    }
}

/// The `k` routes closest to `target` among those that `peer` keeps in
/// `routes`.
pub open spec fn closest_known(routes: Map<PeerId, Seq<Route>>, peer: PeerId, target: PeerId, k: nat) -> Seq<Route> {
    choose|r: Seq<Route>| k_closest_of(routes_to(target, routes[peer]), k, r)
}

/// What one lookup step gathers from `frontier`: for each frontier route in
/// turn, the `k` routes closest to `target` that its peer keeps.
pub open spec fn lookup_gathered(
    routes: Map<PeerId, Seq<Route>>,
    frontier: Seq<Route>,
    target: PeerId,
    k: nat,
) -> Seq<Route> {
    frontier.map_values(|x: Route| closest_known(routes, x.0, target, k)).flatten()
}

/// `r` is the outcome of a lookup step: the gathered routes, ordered by
/// their distance to `target`.
pub open spec fn lookup_step_of(
    routes: Map<PeerId, Seq<Route>>,
    frontier: Seq<Route>,
    target: PeerId,
    k: nat,
    r: Seq<Route>,
) -> bool {
    &&& r.to_multiset() == lookup_gathered(routes, frontier, target, k).to_multiset()
    &&& forall|i: int, j: int| 0 <= i < j < r.len() ==> dist_le(#[trigger] r[i].1, #[trigger] r[j].1)
}

/// The views of a list of route lists.
pub open spec fn route_lists(segs: Seq<Vec<Route>>) -> Seq<Seq<Route>> {
    segs.map_values(|s: Vec<Route>| s@)
}

/// A copy of a route list.
fn copy_routes(routes: &Vec<Route>) -> (r: Vec<Route>)
    ensures
        r@ == routes@,
{
    let mut r: Vec<Route> = Vec::new();
    let mut i: usize = 0;
    while i < routes.len()
        invariant
            0 <= i <= routes@.len(),
            r@ == routes@.take(i as int),
        decreases routes@.len() - i,
    {
        r.push(routes[i]);
        proof {
            assert(routes@.take(i + 1) =~= routes@.take(i as int).push(routes@[i as int]));
        }
        i = i + 1;
    }
    proof {
        assert(routes@.take(i as int) =~= routes@);
    }
    r
}

/// The `k` routes closest to `target` that the peer of `frontier_route`
/// keeps in `dht`.
fn peer_k_closest(dht: &DHT, frontier_route: &Route, target: PeerId, k: usize) -> (r: Vec<Route>)
    requires
        dht.routes@.contains_key(frontier_route.0),
    ensures
        k_closest_of(routes_to(target, dht.routes@[frontier_route.0]), k as nat, r@),
{
    match dht.routes.get(&frontier_route.0) {
        Some(list) => Router::from(frontier_route.0, copy_routes(list)).k_closest(target, k),
        None => Vec::new(),
    }
}

/// Maps each route of `frontier` to the `k` routes closest to `target` that
/// its peer keeps, with rayon's `par_iter().map(..).collect()`; an indexed
/// parallel iterator collects into a vector in the order of its input.
#[verifier::external_body]
fn par_k_closest_each(dht: &DHT, frontier: &Vec<Route>, target: PeerId, k: usize) -> (r: Vec<Vec<Route>>)
    requires
        forall|i: int| 0 <= i < frontier@.len() ==> dht.routes@.contains_key(#[trigger] frontier@[i].0),
    ensures
        r@.len() == frontier@.len(),
        forall|i: int|
            0 <= i < r@.len() ==> k_closest_of(
                routes_to(target, dht.routes@[frontier@[i].0]),
                k as nat,
                #[trigger] r@[i]@,
            ),
{
    frontier.par_iter().map(|x| peer_k_closest(dht, x, target, k)).collect()
}

/// The route lists of `segs`, one after the other.
fn concat_routes(segs: &Vec<Vec<Route>>) -> (r: Vec<Route>)
    ensures
        r@ == route_lists(segs@).flatten(),
{
    let mut r: Vec<Route> = Vec::new();
    let mut i: usize = 0;
    while i < segs.len()
        invariant
            0 <= i <= segs@.len(),
            r@ == route_lists(segs@.take(i as int)).flatten(),
        decreases segs@.len() - i,
    {
        let seg = &segs[i];
        let ghost base = r@;
        let mut j: usize = 0;
        while j < seg.len()
            invariant
                0 <= j <= seg@.len(),
                r@ == base + seg@.take(j as int),
            decreases seg@.len() - j,
        {
            r.push(seg[j]);
            proof {
                assert(seg@.take(j + 1) =~= seg@.take(j as int).push(seg@[j as int]));
                assert(base + seg@.take(j + 1) =~= (base + seg@.take(j as int)).push(seg@[j as int]));
            }
            j = j + 1;
        }
        proof {
            assert(seg@.take(j as int) =~= seg@);
            assert(route_lists(segs@.take(i + 1)) =~= route_lists(segs@.take(i as int)).push(seg@));
            route_lists(segs@.take(i as int)).lemma_flatten_push(seg@);
        }
        i = i + 1;
    }
    proof {
        assert(segs@.take(i as int) =~= segs@);
    }
    r
}

/// The distance limbs of a route: its sort key by distance.
fn distance_key(route: &Route) -> (r: (u64, u64, u64, u64))
    ensures
        r == (route.1.0, route.1.1, route.1.2, route.1.3),
{
    (route.1.0, route.1.1, route.1.2, route.1.3)
}

/// Sorts routes by distance with rayon's `par_sort_by_key`, keyed by the
/// distance limbs, whose tuple order is that of distances: the result is a
/// permutation of the input ordered by distance.
#[verifier::external_body]
fn par_sort_routes(routes: &mut Vec<Route>)
    ensures
        final(routes)@.to_multiset() == old(routes)@.to_multiset(),
        forall|i: int, j: int|
            0 <= i < j < final(routes)@.len() ==> dist_le(#[trigger] final(routes)@[i].1, #[trigger] final(routes)@[j].1),
{
    routes.par_sort_by_key(|route| distance_key(route));
}

/// One step of a lookup towards `target`: each route of `frontier` is
/// replaced by the `k` routes closest to `target` that its peer keeps, and
/// all of them are ordered by distance. Gives `None` when a peer of
/// `frontier` has no routes in `dht`.
pub fn lookup_step(dht: &DHT, frontier: &Vec<Route>, target: PeerId, k: usize) -> (r: Option<Vec<Route>>)
    ensures
        r is None <==> exists|i: int| 0 <= i < frontier@.len() && !dht.routes@.contains_key(#[trigger] frontier@[i].0),
        r is Some ==> lookup_step_of(dht.routes@, frontier@, target, k as nat, r->Some_0@),
        r is Some ==> forall|i: int| 0 <= i < r->Some_0@.len() ==> #[trigger] r->Some_0@[i] == route_to(target, r->Some_0@[i].0),
{
    let mut i: usize = 0;
    while i < frontier.len()
        invariant
            0 <= i <= frontier@.len(),
            forall|j: int| 0 <= j < i ==> dht.routes@.contains_key(#[trigger] frontier@[j].0),
        decreases frontier@.len() - i,
    {
        if dht.routes.get(&frontier[i].0).is_none() {
            return None;
        }
        i = i + 1;
    }
    let segs = par_k_closest_each(dht, frontier, target, k);
    let mut gathered = concat_routes(&segs);
    let ghost g = gathered@;
    proof {
        let gs = frontier@.map_values(|x: Route| closest_known(dht.routes@, x.0, target, k as nat));
        assert forall|j: int| 0 <= j < segs@.len() implies #[trigger] route_lists(segs@)[j] == gs[j] by {
            let m = routes_to(target, dht.routes@[frontier@[j].0]);
            lemma_routes_to_distances_distinct(target, dht.routes@[frontier@[j].0]);
            assert(k_closest_of(m, k as nat, segs@[j]@));
            lemma_k_closest_unique(m, k as nat, segs@[j]@, gs[j]);
        }
        assert(route_lists(segs@) =~= gs);
    }
    par_sort_routes(&mut gathered);
    proof {
        broadcast use vstd::seq_lib::group_to_multiset_ensures;

        let ss = route_lists(segs@);
        assert forall|j: int, a: int| 0 <= j < ss.len() && 0 <= a < ss[j].len() implies #[trigger] ss[j][a]
            == route_to(target, ss[j][a].0) by {
            let m = routes_to(target, dht.routes@[frontier@[j].0]);
            assert(k_closest_of(m, k as nat, segs@[j]@));
            assert(m.contains(ss[j][a]));
            let b = choose|b: int| 0 <= b < m.len() && m[b] == ss[j][a];
            assert(m[b] == route_to(target, dht.routes@[frontier@[j].0][b].0));
        }
        assert forall|a: int| 0 <= a < gathered@.len() implies #[trigger] gathered@[a] == route_to(target, gathered@[a].0) by {
            assert(gathered@.to_multiset().count(gathered@[a]) > 0);
            assert(g.contains(gathered@[a]));
            lemma_flattened_routes_to(ss, target, gathered@[a]);
        }
    }
    Some(gathered)
}

/// A route of a concatenation of route lists that all go from `target` goes
/// from `target` too.
proof fn lemma_flattened_routes_to(ss: Seq<Seq<Route>>, target: PeerId, x: Route)
    requires
        forall|j: int, a: int| 0 <= j < ss.len() && 0 <= a < ss[j].len() ==> #[trigger] ss[j][a] == route_to(target, ss[j][a].0),
        ss.flatten().contains(x),
    ensures
        x == route_to(target, x.0),
    decreases ss.len(),
{
    if ss.len() > 0 {
        let rest = ss.drop_first();
        assert(ss.flatten() == ss[0] + rest.flatten());
        let idx = choose|idx: int| 0 <= idx < ss.flatten().len() && ss.flatten()[idx] == x;
        if idx < ss[0].len() {
            assert(ss[0][idx] == x);
        } else {
            assert(rest.flatten()[idx - ss[0].len()] == x);
            assert forall|j: int, a: int| 0 <= j < rest.len() && 0 <= a < rest[j].len() implies #[trigger] rest[j][a]
                == route_to(target, rest[j][a].0) by {
                assert(rest[j] == ss[j + 1]);
            }
            lemma_flattened_routes_to(rest, target, x);
        }
    }
}

/// When the closest route is closer than the largest distance, it is the one
/// route that the one-closest search returns.
pub proof fn lemma_closest_is_the_one_closest(router_id: PeerId, m: Seq<Route>, r: Route, ks: Seq<Route>)
    requires
        closest_route_of(router_id, m, r),
        k_closest_of(m, 1, ks),
        dist_lt(r.1, max_distance()),
    ensures
        ks == seq![r],
{
    lemma_dist_total(r.1, max_distance());
    let j = choose|j: int|
        0 <= j < m.len() && r == #[trigger] m[j] && dist_lt(r.1, max_distance()) && forall|i: int|
            0 <= i < j ==> dist_lt(r.1, m[i].1);
    assert(m[j] == r);
    if !ks.contains(r) {
        assert(ks.len() == 1 && dist_lt(ks[0].1, r.1));
        assert(m.contains(ks[0]));
        let w = choose|w: int| 0 <= w < m.len() && m[w] == ks[0];
        assert(dist_le(r.1, m[w].1));
        lemma_dist_total(r.1, ks[0].1);
    }
    let a = choose|a: int| 0 <= a < ks.len() && ks[a] == r;
    assert(ks =~= seq![r]);
}

/// No two routes of `m` lie at the same distance.
pub open spec fn distances_distinct(m: Seq<Route>) -> bool {
    forall|i: int, j: int| 0 <= i < m.len() && 0 <= j < m.len() && #[trigger] m[i].1 == #[trigger] m[j].1 ==> m[i] == m[j]
}

/// The routes from one key to a list of peers lie at distinct distances.
pub proof fn lemma_routes_to_distances_distinct(search: PeerId, list: Seq<Route>)
    ensures
        distances_distinct(routes_to(search, list)),
{
    let m = routes_to(search, list);
    assert forall|i: int, j: int| 0 <= i < m.len() && 0 <= j < m.len() && #[trigger] m[i].1 == #[trigger] m[j].1 implies m[i] == m[j] by {
        lemma_same_distance_same_route(search, list[i].0, list[j].0);
    }
}

proof fn lemma_k_closest_prefix(m: Seq<Route>, k: nat, r1: Seq<Route>, r2: Seq<Route>, a: int)
    requires
        distances_distinct(m),
        k_closest_of(m, k, r1),
        k_closest_of(m, k, r2),
        0 <= a < r1.len(),
        a < r2.len(),
    ensures
        forall|b: int| 0 <= b <= a ==> r1[b] == r2[b],
    decreases a,
{
    if a > 0 {
        lemma_k_closest_prefix(m, k, r1, r2, a - 1);
    }
    lemma_k_closest_step(m, k, r1, r2, a);
    lemma_k_closest_step(m, k, r2, r1, a);
    let x = r1[a];
    let y = r2[a];
    lemma_dist_total(x.1, y.1);
    let i = choose|i: int| 0 <= i < m.len() && m[i] == x;
    let j = choose|j: int| 0 <= j < m.len() && m[j] == y;
    if x.1 == y.1 {
        assert(m[i].1 == m[j].1);
    }
}

/// With the routes before position `a` shared, the route of `r1` at `a` is
/// not closer than the route of `r2` at `a`.
proof fn lemma_k_closest_step(m: Seq<Route>, k: nat, r1: Seq<Route>, r2: Seq<Route>, a: int)
    requires
        k_closest_of(m, k, r1),
        k_closest_of(m, k, r2),
        0 <= a < r1.len(),
        a < r2.len(),
        forall|b: int| 0 <= b < a ==> r1[b] == r2[b],
    ensures
        !dist_lt(r1[a].1, r2[a].1),
{
    let x = r1[a];
    let y = r2[a];
    if dist_lt(x.1, y.1) {
        assert(m.contains(x));
        let i = choose|i: int| 0 <= i < m.len() && m[i] == x;
        if r2.contains(x) {
            let c = choose|c: int| 0 <= c < r2.len() && r2[c] == x;
            lemma_dist_total(x.1, y.1);
            if c > a {
                lemma_dist_lt_transitive(y.1, x.1, y.1);
            } else if c == a {
            } else {
                assert(r1[c] == x);
                lemma_dist_total(r1[c].1, r1[a].1);
            }
        } else {
            assert(dist_lt(r2[a].1, m[i].1));
            lemma_dist_total(x.1, y.1);
        }
    }
}

/// The `k` closest distinct routes are determined by the routes they are
/// chosen from: two lists that both are the `k` closest are equal, whatever
/// the order in which the routes came.
pub proof fn lemma_k_closest_unique(m: Seq<Route>, k: nat, r1: Seq<Route>, r2: Seq<Route>)
    requires
        distances_distinct(m),
        k_closest_of(m, k, r1),
        k_closest_of(m, k, r2),
    ensures
        r1 == r2,
{
    let n = if r1.len() < r2.len() { r1.len() } else { r2.len() };
    if n > 0 {
        lemma_k_closest_prefix(m, k, r1, r2, n - 1);
    }
    if r1.len() < r2.len() {
        lemma_k_closest_longer(m, k, r1, r2);
    } else if r2.len() < r1.len() {
        if n > 0 {
            lemma_k_closest_prefix(m, k, r2, r1, n - 1);
        }
        lemma_k_closest_longer(m, k, r2, r1);
    }
    assert(r1 =~= r2);
}

/// A list of the `k` closest is no shorter than another one it agrees with.
proof fn lemma_k_closest_longer(m: Seq<Route>, k: nat, r1: Seq<Route>, r2: Seq<Route>)
    requires
        k_closest_of(m, k, r1),
        k_closest_of(m, k, r2),
        forall|b: int| 0 <= b < r1.len() && b < r2.len() ==> r1[b] == r2[b],
    ensures
        r1.len() >= r2.len(),
{
    if r1.len() < r2.len() {
        let n = r1.len() as int;
        let y = r2[n];
        assert(m.contains(y));
        let i = choose|i: int| 0 <= i < m.len() && m[i] == y;
        assert(r1.contains(m[i]));
        let c = choose|c: int| 0 <= c < r1.len() && r1[c] == y;
        assert(r2[c] == y);
        lemma_dist_total(r2[c].1, r2[n].1);
    }
}

} // verus!
