use scatter_gather::connection::ConnectionId;
use scatter_gather::pool::{
    PollAction, Pool, PoolConfig, PoolConnectionCounters, PoolConnectionLimits, PoolInput, TryRecvError,
};

fn new_pool(buffer: usize) -> Pool<String, u32> {
    Pool::new(0u32, PoolConfig { task_event_buffer_size: buffer }, PoolConnectionLimits::default())
}

#[test]
fn defaults_match_the_documented_values() {
    assert_eq!(PoolConfig::default().task_event_buffer_size, 1);
    let limits = PoolConnectionLimits::default();
    assert_eq!(limits.max_injected, Some(10));
    assert_eq!(limits.max_pending_incoming, Some(2));
    assert_eq!(limits.max_pending_outgoing, Some(2));
    assert_eq!(limits.max_established_incoming, Some(4));
    assert_eq!(limits.max_established_outgoing, Some(4));
    assert_eq!(limits.max_established_per_peer, Some(4));
    assert_eq!(limits.max_established_total, Some(4));
    let counters = PoolConnectionCounters::default();
    assert_eq!(counters.injected, 0);
    assert_eq!(counters.pending_incoming, 0);
    assert_eq!(counters.established_incoming, 0);
    assert_eq!(counters.limits.max_injected, Some(10));
}

#[test]
fn a_new_pool_has_nothing_to_eject() {
    let mut pool = new_pool(1);
    assert_eq!(pool.eject_connection(), Err(TryRecvError::Empty));
    assert!(pool.get_established_connection(ConnectionId(1)).is_none());
}

#[test]
fn arrival_then_exhaustion_establishes_and_reports() {
    let mut pool = new_pool(1);
    let mut result = Vec::new();
    pool.inject_connection();
    assert_eq!(pool.poll_event(PoolInput::Ready("first".to_string()), &mut result), PollAction::Continue);
    assert!(result.is_empty());
    assert!(pool.get_established_connection(ConnectionId(1)).is_none());
    assert_eq!(pool.poll_event(PoolInput::Exhausted, &mut result), PollAction::Continue);
    assert_eq!(result, vec![ConnectionId(1u32)]);
    let established = pool.get_established_connection(ConnectionId(1)).expect("established");
    assert_eq!(established.id, ConnectionId(1u32));
    assert_eq!(established.conn, "first");
    assert_eq!(pool.poll_event(PoolInput::Exhausted, &mut result), PollAction::Finish);
    assert_eq!(pool.eject_connection(), Ok(ConnectionId(1u32)));
    assert_eq!(pool.eject_connection(), Err(TryRecvError::Empty));
}

#[test]
fn nothing_to_do_keeps_polling() {
    let mut pool = new_pool(1);
    let mut result = Vec::new();
    assert_eq!(pool.poll_event(PoolInput::Exhausted, &mut result), PollAction::Continue);
    assert!(result.is_empty());
}

#[test]
fn a_full_pending_queue_drops_the_event() {
    let mut pool = new_pool(1);
    let mut result = Vec::new();
    pool.poll_event(PoolInput::Ready("a".to_string()), &mut result);
    pool.poll_event(PoolInput::Ready("b".to_string()), &mut result);
    assert_eq!(pool.poll_event(PoolInput::Exhausted, &mut result), PollAction::Continue);
    assert_eq!(pool.poll_event(PoolInput::Exhausted, &mut result), PollAction::Finish);
    assert_eq!(result, vec![ConnectionId(1u32)]);
    assert!(pool.get_established_connection(ConnectionId(1)).is_some());
    assert!(pool.get_established_connection(ConnectionId(2)).is_none());
}

#[test]
fn a_larger_queue_establishes_in_arrival_order() {
    let mut pool = new_pool(4);
    let mut result = Vec::new();
    for name in ["a", "b", "c"] {
        pool.poll_event(PoolInput::Ready(name.to_string()), &mut result);
    }
    while pool.poll_event(PoolInput::Exhausted, &mut result) == PollAction::Continue {}
    assert_eq!(result, vec![ConnectionId(1u32), ConnectionId(2), ConnectionId(3)]);
    assert_eq!(pool.get_established_connection(ConnectionId(2)).unwrap().conn, "b");
    assert_eq!(pool.eject_connection(), Ok(ConnectionId(1u32)));
    assert_eq!(pool.eject_connection(), Ok(ConnectionId(2u32)));
    assert_eq!(pool.eject_connection(), Ok(ConnectionId(3u32)));
    assert_eq!(pool.eject_connection(), Err(TryRecvError::Empty));
}

#[test]
fn a_zero_sized_queue_never_establishes() {
    let mut pool = new_pool(0);
    let mut result = Vec::new();
    pool.poll_event(PoolInput::Ready("a".to_string()), &mut result);
    assert_eq!(pool.poll_event(PoolInput::Exhausted, &mut result), PollAction::Continue);
    assert!(result.is_empty());
    assert!(pool.get_established_connection(ConnectionId(1)).is_none());
}

#[test]
fn overflow_checks_follow_the_counters() {
    let pool = new_pool(1);
    assert!(!pool.step_overflows(true));
    assert!(!pool.step_overflows(false));
    let mut small: Pool<(), u8> = Pool::new(0u8, PoolConfig::default(), PoolConnectionLimits::default());
    let mut result = Vec::new();
    for _ in 0..255 {
        assert!(!small.step_overflows(true));
        small.poll_event(PoolInput::Ready(()), &mut result);
    }
    assert!(small.step_overflows(true));
}

#[test]
fn pool_connections_are_equal_when_their_ids_are() {
    let a = scatter_gather::pool::PoolConnection { id: ConnectionId(1u8), conn: "x" };
    let b = scatter_gather::pool::PoolConnection { id: ConnectionId(1u8), conn: "y" };
    let c = scatter_gather::pool::PoolConnection { id: ConnectionId(2u8), conn: "x" };
    assert!(a == b);
    assert!(a != c);
}

#[test]
fn injecting_counts_without_overflow() {
    let mut pool = new_pool(1);
    assert!(!pool.inject_overflows());
    for _ in 0..3 {
        pool.inject_connection();
        assert!(!pool.inject_overflows());
    }
}

#[test]
fn an_idle_step_never_overflows() {
    let mut pool = new_pool(1);
    let mut result = Vec::new();
    assert!(!pool.step_overflows(false));
    pool.poll_event(PoolInput::Ready("a".to_string()), &mut result);
    assert!(!pool.step_overflows(false));
    assert!(!pool.step_overflows(true));
}

#[test]
fn successive_polls_report_increasing_ids() {
    let mut pool = new_pool(2);
    let mut first = Vec::new();
    for name in ["a", "b"] {
        pool.poll_event(PoolInput::Ready(name.to_string()), &mut first);
    }
    while pool.poll_event(PoolInput::Exhausted, &mut first) == PollAction::Continue {}
    let mut second = Vec::new();
    for name in ["c", "d"] {
        pool.poll_event(PoolInput::Ready(name.to_string()), &mut second);
    }
    while pool.poll_event(PoolInput::Exhausted, &mut second) == PollAction::Continue {}
    assert_eq!(first, vec![ConnectionId(1u32), ConnectionId(2)]);
    assert_eq!(second, vec![ConnectionId(3u32), ConnectionId(4)]);
    for a in &first {
        for b in &second {
            assert!(a.0 < b.0);
        }
    }
    for id in first.iter().chain(second.iter()) {
        assert!(pool.get_established_connection(*id).is_some());
    }
    assert!(pool.get_established_connection(ConnectionId(5)).is_none());
}
