use rand::seq::SliceRandom;
use std::cmp::Ordering;
use scatter_gather::dht::{lookup_step, routes_for, Route, RouteTable, Router, DHT, ROUTER_LIST_SIZE};
use scatter_gather::xor::{Distance, Key, PeerId};

fn random_peer() -> PeerId {
    PeerId(rand::random(), rand::random(), rand::random(), rand::random())
}

fn peer(low: u64) -> PeerId {
    PeerId(0, 0, 0, low)
}

fn route(p: PeerId) -> Route {
    Route(p, Distance(9, 9, 9, 9))
}

#[test]
fn test_routes_generation() {
    const ROUTER_SIZE: usize = 13;
    const NETWORK_SIZE: usize = 10_000;

    let mut collection: Vec<PeerId> = Vec::new();
    for _i in 0..NETWORK_SIZE {
        collection.push(random_peer());
    }

    let mut rng = rand::thread_rng();
    let random_id = collection.choose(&mut rng).expect("No PeerId.").clone();

    let dht = DHT::new().routing(collection, ROUTER_SIZE).expect("Cannot generate routing.");
    let routes: Vec<Route> = dht.routes.get(&random_id).expect("Could not find routes.").clone();
    let _assert = routes
        .into_iter()
        .map(|x| {
            let key = Key::from(random_id);
            assert!(key.distance(&Key::from(x.0)) == x.1);
            x
        })
        .collect::<Vec<Route>>();
}

#[test]
fn routes_compare_by_distance_only() {
    assert!(Route(peer(1), Distance(0, 0, 0, 3)) == Route(peer(2), Distance(0, 0, 0, 3)));
    assert!(Route(peer(1), Distance(0, 0, 0, 3)) != Route(peer(1), Distance(0, 0, 0, 4)));
}

#[test]
fn closest_picks_the_first_nearest_peer() {
    let router = Router::from(peer(100), vec![route(peer(0b1000)), route(peer(0b0110)), route(peer(0b0101))]);
    let best = router.closest(peer(0b0111));
    assert_eq!(best.0, peer(0b0110));
    assert_eq!(best.1, Distance(0, 0, 0, 1));
}

#[test]
fn closest_without_peers_is_the_router_itself() {
    let router = Router::from(peer(100), Vec::new());
    let best = router.closest(peer(3));
    assert_eq!(best.0, peer(100));
    assert_eq!(best.1, Distance::maximum());
}

#[test]
fn closest_keeps_the_router_at_the_largest_distance() {
    let far = PeerId(u64::MAX, u64::MAX, u64::MAX, u64::MAX);
    let router = Router::from(peer(100), vec![route(far)]);
    let best = router.closest(PeerId(0, 0, 0, 0));
    assert_eq!(best.0, peer(100));
    assert_eq!(best.1, Distance::maximum());
}

#[test]
fn k_closest_sorts_dedups_and_truncates() {
    let list = vec![route(peer(9)), route(peer(2)), route(peer(12)), route(peer(2)), route(peer(1))];
    let router = Router::from(peer(100), list);
    let closest = router.k_closest(peer(0), 3);
    let peers: Vec<PeerId> = closest.iter().map(|r| r.0).collect();
    assert_eq!(peers, vec![peer(1), peer(2), peer(9)]);
    let distances: Vec<Distance> = closest.iter().map(|r| r.1).collect();
    assert_eq!(distances, vec![Distance(0, 0, 0, 1), Distance(0, 0, 0, 2), Distance(0, 0, 0, 9)]);
}

#[test]
fn k_closest_recomputes_distances_from_the_target() {
    let router = Router::from(peer(100), vec![route(peer(0b1111)), route(peer(0b0001))]);
    let closest = router.k_closest(peer(0b1110), 10);
    assert_eq!(closest.len(), 2);
    assert_eq!(closest[0].0, peer(0b1111));
    assert_eq!(closest[0].1, Distance(0, 0, 0, 1));
    assert_eq!(closest[1].0, peer(0b0001));
    assert_eq!(closest[1].1, Distance(0, 0, 0, 0b1111));
}

#[test]
fn k_closest_with_zero_is_empty() {
    let router = Router::from(peer(100), vec![route(peer(1))]);
    assert!(router.k_closest(peer(0), 0).is_empty());
}

#[test]
fn k_closest_orders_by_the_most_significant_limb_first() {
    let high = PeerId(1, 0, 0, 0);
    let low = PeerId(0, 0, 0, u64::MAX);
    let router = Router::from(peer(0), vec![route(high), route(low)]);
    let closest = router.k_closest(PeerId(0, 0, 0, 0), 2);
    assert_eq!(closest[0].0, low);
    assert_eq!(closest[1].0, high);
}

#[test]
fn sort_consumes_the_router() {
    Router::from(peer(1), vec![route(peer(3)), route(peer(2))]).sort();
}

#[test]
fn routes_for_keeps_the_closest_sampled_peers() {
    let sample: Vec<PeerId> = (1..=30u64).rev().map(peer).collect();
    let routes = routes_for(peer(0), sample);
    assert_eq!(routes.len(), ROUTER_LIST_SIZE);
    for (i, r) in routes.iter().enumerate() {
        assert_eq!(r.0, peer(i as u64 + 1));
        assert_eq!(r.1, Distance(0, 0, 0, i as u64 + 1));
    }
}

#[test]
fn route_table_insert_and_get() {
    let mut table = RouteTable::new();
    assert!(table.get(&peer(1)).is_none());
    table.insert(peer(1), vec![route(peer(2))]);
    table.insert(peer(3), vec![]);
    assert_eq!(table.get(&peer(1)).unwrap().len(), 1);
    table.insert(peer(1), vec![route(peer(4)), route(peer(5))]);
    assert_eq!(table.get(&peer(1)).unwrap().len(), 2);
    assert_eq!(table.get(&peer(1)).unwrap()[0].0, peer(4));
    assert!(table.get(&peer(3)).unwrap().is_empty());
    assert!(table.get(&peer(2)).is_none());
}

#[test]
fn routing_covers_every_peer_with_consistent_routes() {
    let collection: Vec<PeerId> = (1..=40u64).map(peer).collect();
    let dht = DHT::new().routing(collection.clone(), 40).expect("routing");
    for p in &collection {
        let routes = dht.routes.get(p).expect("routes");
        assert_eq!(routes.len(), ROUTER_LIST_SIZE);
        assert_eq!(routes[0].0, *p);
        assert_eq!(routes[0].1, Distance(0, 0, 0, 0));
        for w in routes.windows(2) {
            assert!(w[0].1.less_than(&w[1].1));
        }
        for r in routes {
            assert_eq!(Key::from(*p).distance(&Key::from(r.0)), r.1);
            assert!(collection.contains(&r.0));
        }
    }
    assert!(dht.routes.get(&peer(41)).is_none());
}

#[test]
fn routing_samples_at_most_router_size_peers() {
    let collection: Vec<PeerId> = (1..=50u64).map(peer).collect();
    let dht = DHT::new().routing(collection.clone(), 3).expect("routing");
    for p in &collection {
        assert!(dht.routes.get(p).unwrap().len() <= 3);
    }
    let empty = DHT::new().routing(Vec::new(), 3).expect("routing");
    assert!(empty.routes.get(&peer(1)).is_none());
}

#[test]
fn routes_order_by_distance_and_routers_by_id() {
    let near = Route(peer(5), Distance(0, 0, 0, 1));
    let far = Route(peer(1), Distance(0, 0, 1, 0));
    assert_eq!(near.partial_cmp(&far), Some(Ordering::Less));
    assert_eq!(far.partial_cmp(&near), Some(Ordering::Greater));
    assert!(near < far);
    let a = Router::from(peer(1), vec![route(peer(7))]);
    let b = Router::from(peer(2), Vec::new());
    let c = Router::from(peer(1), Vec::new());
    assert!(a == c);
    assert!(a != b);
    assert_eq!(a.partial_cmp(&b), Some(Ordering::Less));
    assert!(peer(1).less_than(&peer(2)));
    assert!(!PeerId(1, 0, 0, 0).less_than(&peer(u64::MAX)));
}

#[test]
fn k_closest_does_not_depend_on_the_order_of_the_peers() {
    let forward: Vec<Route> = (1..=12u64).map(|i| route(peer(i * 3))).collect();
    let backward: Vec<Route> = forward.iter().rev().cloned().collect();
    let a = Router::from(peer(0), forward).k_closest(peer(17), 5);
    let b = Router::from(peer(0), backward).k_closest(peer(17), 5);
    let pa: Vec<PeerId> = a.iter().map(|r| r.0).collect();
    let pb: Vec<PeerId> = b.iter().map(|r| r.0).collect();
    assert_eq!(pa, pb);
    assert_eq!(pa.len(), 5);
}

#[test]
fn closest_is_the_single_closest() {
    let list: Vec<Route> = [40u64, 9, 33, 12].iter().map(|&i| route(peer(i))).collect();
    let best = Router::from(peer(0), list.clone()).closest(peer(8));
    let one = Router::from(peer(0), list).k_closest(peer(8), 1);
    assert_eq!(one.len(), 1);
    assert_eq!(one[0].0, best.0);
    assert_eq!(one[0].1, best.1);
    assert_eq!(best.0, peer(9));
}

fn table_dht() -> DHT {
    let mut table = RouteTable::new();
    table.insert(peer(1), vec![route(peer(2)), route(peer(4)), route(peer(8))]);
    table.insert(peer(2), vec![route(peer(3)), route(peer(6))]);
    DHT { routes: table }
}

#[test]
fn lookup_step_gathers_and_orders_by_distance() {
    let dht = table_dht();
    let frontier = vec![route(peer(1)), route(peer(2))];
    let next = lookup_step(&dht, &frontier, peer(6), 2).expect("every frontier peer is known");
    let peers: Vec<PeerId> = next.iter().map(|r| r.0).collect();
    let distances: Vec<Distance> = next.iter().map(|r| r.1).collect();
    assert_eq!(peers, vec![peer(6), peer(4), peer(2), peer(3)]);
    assert_eq!(
        distances,
        vec![Distance(0, 0, 0, 0), Distance(0, 0, 0, 2), Distance(0, 0, 0, 4), Distance(0, 0, 0, 5)]
    );
    assert_eq!(next[0].1.ilog2(), None);
}

#[test]
fn lookup_step_keeps_repeated_routes() {
    let dht = table_dht();
    let frontier = vec![route(peer(2)), route(peer(2))];
    let next = lookup_step(&dht, &frontier, peer(6), 1).expect("every frontier peer is known");
    let peers: Vec<PeerId> = next.iter().map(|r| r.0).collect();
    assert_eq!(peers, vec![peer(6), peer(6)]);
}

#[test]
fn lookup_step_fails_on_an_unknown_peer() {
    let dht = table_dht();
    assert!(lookup_step(&dht, &vec![route(peer(1)), route(peer(9))], peer(6), 2).is_none());
    assert_eq!(lookup_step(&dht, &vec![], peer(6), 2), Some(vec![]));
}
