use scatter_gather::connection::{Connection, ConnectionHandlerInEvent, ConnectionHandlerOutEvent, ConnectionId};
use scatter_gather::middleware_interface::NodeConfig;

#[test]
fn from_true_is_one_for_scalars() {
    assert_eq!(ConnectionId::<i8>::default().incr(), ConnectionId::<i8>(1));
    assert_eq!(ConnectionId::<i16>::default().incr(), ConnectionId::<i16>(1));
    assert_eq!(ConnectionId::<i32>::default().incr(), ConnectionId::<i32>(1));
    assert_eq!(ConnectionId::<i64>::default().incr(), ConnectionId::<i64>(1));
    assert_eq!(ConnectionId::<i128>::default().incr(), ConnectionId::<i128>(1));
    assert_eq!(ConnectionId::<isize>::default().incr(), ConnectionId::<isize>(1));
    assert_eq!(ConnectionId::<u8>::default().incr(), ConnectionId::<u8>(1));
    assert_eq!(ConnectionId::<u16>::default().incr(), ConnectionId::<u16>(1));
    assert_eq!(ConnectionId::<u32>::default().incr(), ConnectionId::<u32>(1));
    assert_eq!(ConnectionId::<u64>::default().incr(), ConnectionId::<u64>(1));
    assert_eq!(ConnectionId::<u128>::default().incr(), ConnectionId::<u128>(1));
    assert_eq!(ConnectionId::<usize>::default().incr(), ConnectionId::<usize>(1));
}

#[test]
fn incr_advances_and_returns_the_new_id() {
    let mut id = ConnectionId::new(41u32);
    let returned = id.incr();
    assert_eq!(returned, ConnectionId(42u32));
    assert_eq!(id, ConnectionId(42u32));
    assert_eq!(id.incr(), ConnectionId(43u32));
}

#[test]
fn incr_reaches_the_largest_value() {
    let mut id = ConnectionId::new(254u8);
    assert_eq!(id.incr(), ConnectionId(255u8));
    let mut signed = ConnectionId::new(-1i64);
    assert_eq!(signed.incr(), ConnectionId(0i64));
}

#[test]
fn same_as_compares_values() {
    let a = ConnectionId::new(7usize);
    let b = ConnectionId::new(7usize);
    let c = ConnectionId::new(8usize);
    assert!(a.same_as(&b));
    assert!(!a.same_as(&c));
}

#[test]
fn node_config_from_copies_its_parts() {
    let config = NodeConfig::from("wss://example.org/ws", "depth", Some("{\"subscribe\":1}"));
    assert_eq!(config.url, "wss://example.org/ws");
    assert_eq!(config.prefix, "depth");
    assert_eq!(config.init_handle, Some("{\"subscribe\":1}".to_string()));
    let bare = NodeConfig::from("redis://127.0.0.1/", "", None);
    assert_eq!(bare.url, "redis://127.0.0.1/");
    assert_eq!(bare.prefix, "");
    assert_eq!(bare.init_handle, None);
}

#[test]
fn connections_and_events_carry_their_payload() {
    let connection = Connection { id: ConnectionId::new(1usize), source_type: NodeConfig::from("a", "b", None) };
    match ConnectionHandlerOutEvent::ConnectionEvent(connection.clone()) {
        ConnectionHandlerOutEvent::ConnectionEvent(c) => {
            assert_eq!(c.id, ConnectionId(1usize));
            assert_eq!(c.source_type.url, "a");
        }
        _ => panic!("wrong event"),
    }
    assert_ne!(ConnectionHandlerInEvent::Connect, ConnectionHandlerInEvent::Disconnect);
}

#[test]
fn connections_are_equal_when_their_ids_are() {
    let a = Connection { id: ConnectionId::new(3u16), source_type: NodeConfig::from("a", "x", None) };
    let b = Connection { id: ConnectionId::new(3u16), source_type: NodeConfig::from("b", "y", Some("z")) };
    let c = Connection { id: ConnectionId::new(4u16), source_type: NodeConfig::from("a", "x", None) };
    assert!(a == b);
    assert!(a != c);
}

#[test]
fn adding_to_an_id_gives_the_sum() {
    assert_eq!(ConnectionId(3u32) + 4u32, ConnectionId(7u32));
    assert_eq!(ConnectionId(-5i16) + 2i16, ConnectionId(-3i16));
    assert_eq!(ConnectionId(250u8) + 5u8, ConnectionId(255u8));
    assert_eq!(ConnectionId(9usize) + 0usize, ConnectionId(9usize));
}

#[test]
fn successive_increments_are_increasing_and_fresh() {
    let c0 = ConnectionId::new(5u16);
    let mut c = c0;
    let rs: Vec<ConnectionId<u16>> = (0..4).map(|_| c.incr()).collect();
    assert_eq!(rs, vec![ConnectionId(6u16), ConnectionId(7), ConnectionId(8), ConnectionId(9)]);
    for i in 0..rs.len() {
        assert_ne!(rs[i], c0);
        assert_eq!(rs[i], c0 + (i as u16 + 1));
        for j in i + 1..rs.len() {
            assert!(rs[i].0 < rs[j].0);
        }
    }
}
