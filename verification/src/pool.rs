//! The connection pool: it numbers the connections that complete, keeps them
//! pending until their pending event is read, then establishes them and
//! queues an established event for each.
//!
//! The bounded event channels of the pool are queues of at most
//! `task_event_buffer_size` identifiers: a send into a full queue is dropped,
//! as a `try_send` into a full `sync_channel` is.
use vstd::prelude::*;
use crate::connection::{ConnectionId, ConnectionIdValue};
use vstd::std_specs::cmp::PartialEqSpecImpl;

verus! {

/// How large the pool's event queues are.
pub struct PoolConfig {
    pub task_event_buffer_size: usize,
}

impl Default for PoolConfig {
    fn default() -> (r: Self)
        ensures
            r.task_event_buffer_size == 1,
    {
        PoolConfig { task_event_buffer_size: 1 }
    }
}

/// Upper limits on the connections of each kind.
#[derive(Debug, Clone)]
pub struct PoolConnectionLimits {
    pub max_injected: Option<u32>,
    pub max_pending_incoming: Option<u32>,
    pub max_pending_outgoing: Option<u32>,
    pub max_established_incoming: Option<u32>,
    pub max_established_outgoing: Option<u32>,
    pub max_established_per_peer: Option<u32>,
    pub max_established_total: Option<u32>,
}

/// The default limits: ten injected connections, two pending and four
/// established ones of each direction, four per peer and four in total.
pub open spec fn default_limits(l: PoolConnectionLimits) -> bool {
    &&& l.max_injected == Some(10u32)
    &&& l.max_pending_incoming == Some(2u32)
    &&& l.max_pending_outgoing == Some(2u32)
    &&& l.max_established_incoming == Some(4u32)
    &&& l.max_established_outgoing == Some(4u32)
    &&& l.max_established_per_peer == Some(4u32)
    &&& l.max_established_total == Some(4u32)
}

impl Default for PoolConnectionLimits {
    fn default() -> (r: Self)
        ensures
            default_limits(r),
    {
        PoolConnectionLimits {
            max_injected: Some(10),
            max_pending_incoming: Some(2),
            max_pending_outgoing: Some(2),
            max_established_incoming: Some(4),
            max_established_outgoing: Some(4),
            max_established_per_peer: Some(4),
            max_established_total: Some(4),
        }
    }
}

/// How many connections of each kind the pool has seen.
#[derive(Debug, Clone)]
pub struct PoolConnectionCounters {
    /// The number of connections handed to the pool.
    pub injected: u32,
    /// The effective connection limits.
    pub limits: PoolConnectionLimits,
    /// The current number of incoming connections.
    pub pending_incoming: u32,
    /// The current number of outgoing connections.
    pub pending_outgoing: u32,
    /// The current number of established inbound connections.
    pub established_incoming: u32,
    /// The current number of established outbound connections.
    pub established_outgoing: u32,
}

impl Default for PoolConnectionCounters {
    fn default() -> (r: Self)
        ensures
            r.injected == 0,
            r.pending_incoming == 0,
            r.pending_outgoing == 0,
            r.established_incoming == 0,
            r.established_outgoing == 0,
            default_limits(r.limits),
    {
        PoolConnectionCounters {
            injected: 0,
            limits: PoolConnectionLimits::default(),
            pending_incoming: 0,
            pending_outgoing: 0,
            established_incoming: 0,
            established_outgoing: 0,
        }
    }
}

/// A connection that the pool holds, with its identifier.
#[derive(Debug)]
pub struct PoolConnection<T, Id> {
    pub id: ConnectionId<Id>,
    pub conn: T,
}

impl<T, Id: ConnectionIdValue> PartialEq for PoolConnection<T, Id> {
    fn eq(&self, other: &Self) -> (r: bool) {
        self.id.same_as(&other.id)
    }
}

impl<T, Id: ConnectionIdValue> PartialEqSpecImpl for PoolConnection<T, Id> {
    open spec fn obeys_eq_spec() -> bool {
        true
    }

    open spec fn eq_spec(&self, other: &PoolConnection<T, Id>) -> bool {
        self.id.value() == other.id.value()
    }
}

impl<T, Id: ConnectionIdValue> Eq for PoolConnection<T, Id> {
}

/// A connection whose pending event has not been read yet.
pub struct PendingConnection<T, Id>(pub PoolConnection<T, Id>);

/// A connection that the pool has established.
pub struct EstablishedConnection<T, Id>(pub PoolConnection<T, Id>);

/// What the pool reports about a connection.
pub enum PoolEvent<T, Id> {
    ConnectionEstablished(PoolConnection<T, Id>),
    ConnectionClosed(PoolConnection<T, Id>),
    ConnectionEvent(PoolConnection<T, Id>),
    Custom,
}

/// The error of reading an empty event queue.
#[derive(Debug, Clone, Copy, PartialEq, Eq)]
pub enum TryRecvError {
    Empty,
    Disconnected,
}

/// What the task queue of the pool gave when it was polled.
pub enum PoolInput<T> {
    /// A spawned connection task completed with this connection.
    Ready(T),
    /// No spawned task is left.
    Exhausted,
}

/// What the polling loop does after a step.
#[derive(Debug, Clone, Copy, PartialEq, Eq)]
pub enum PollAction {
    /// Poll again.
    Continue,
    /// Stop and report the identifiers collected so far.
    Finish,
}

/// The state that a connection pool keeps.
struct PoolState<T, Id> {
    pool_id: Id,
    counters: PoolConnectionCounters,
    last_connection_id: ConnectionId<Id>,
    pending: Vec<PendingConnection<T, Id>>,
    established: Vec<EstablishedConnection<T, Id>>,
    event_buffer_size: usize,
    pending_connection_events: Vec<ConnectionId<Id>>,
    established_connection_events: Vec<ConnectionId<Id>>,
}

/// The values of the identifiers in `q` strictly increase.
pub open spec fn increasing_values<Id: ConnectionIdValue>(q: Seq<ConnectionId<Id>>) -> bool {
    forall|i: int, j: int| 0 <= i < j < q.len() ==> q[i].value() < q[j].value()
}

/// Whether some connection of `s` has the identifier value `v`.
pub open spec fn holds_id<T, Id: ConnectionIdValue>(s: Seq<PoolConnection<T, Id>>, v: int) -> bool {
    exists|j: int| 0 <= j < s.len() && #[trigger] s[j].id.value() == v
}

/// The identifier values of `s` are pairwise distinct.
pub open spec fn distinct_ids<T, Id: ConnectionIdValue>(s: Seq<PoolConnection<T, Id>>) -> bool {
    forall|i: int, j: int| 0 <= i < j < s.len() ==> s[i].id.value() != s[j].id.value()
}

/// The values of the identifiers in `q` are pairwise distinct.
pub open spec fn distinct_values<Id: ConnectionIdValue>(q: Seq<ConnectionId<Id>>) -> bool {
    forall|i: int, j: int| 0 <= i < j < q.len() ==> q[i].value() != q[j].value()
}

impl<T, Id: ConnectionIdValue> PoolState<T, Id> {
    /// The pending connections, oldest first.
    pub closed spec fn pending_view(&self) -> Seq<PoolConnection<T, Id>> {
        self.pending@.map_values(|p: PendingConnection<T, Id>| p.0)
    }

    /// The established connections, oldest first.
    pub closed spec fn established_view(&self) -> Seq<PoolConnection<T, Id>> {
        self.established@.map_values(|e: EstablishedConnection<T, Id>| e.0)
    }

    /// The identifiers waiting in the pending event queue.
    pub closed spec fn pending_queue(&self) -> Seq<ConnectionId<Id>> {
        self.pending_connection_events@
    }

    /// The identifiers waiting in the established event queue.
    pub closed spec fn established_queue(&self) -> Seq<ConnectionId<Id>> {
        self.established_connection_events@
    }

    /// The identifier given to the latest connection (zero before any).
    pub closed spec fn last_id(&self) -> ConnectionId<Id> {
        self.last_connection_id
    }

    /// The capacity of each event queue.
    pub closed spec fn capacity(&self) -> nat {
        self.event_buffer_size as nat
    }

    /// The counters of the pool.
    pub closed spec fn counters(&self) -> PoolConnectionCounters {
        self.counters
    }

    /// The identifier of the pool.
    pub closed spec fn pool_id(&self) -> Id {
        self.pool_id
    }

    /// The invariant of the pool.
    ///
    /// Connections are numbered 1, 2, ... in the order in which they arrive;
    /// each of them is either pending or established, never both; the
    /// counters count them; the event queues hold distinct identifiers of
    /// pending (resp. established) connections and do not exceed their
    /// capacity.
    pub closed spec fn wf(&self) -> bool {
        let p = self.pending_view();
        let e = self.established_view();
        let last = self.last_id().value();
        let pq = self.pending_queue();
        let eq = self.established_queue();
        &&& last >= 0
        &&& p.len() + e.len() == last
        &&& forall|i: int| 0 <= i < p.len() ==> 1 <= #[trigger] p[i].id.value() <= last
        &&& forall|i: int| 0 <= i < e.len() ==> 1 <= #[trigger] e[i].id.value() <= last
        &&& distinct_ids(p)
        &&& distinct_ids(e)
        &&& forall|i: int, j: int|
            0 <= i < p.len() && 0 <= j < e.len() ==> #[trigger] p[i].id.value() != #[trigger] e[j].id.value()
        &&& self.counters.pending_incoming == p.len()
        &&& self.counters.established_incoming == e.len()
        &&& pq.len() <= self.capacity()
        &&& eq.len() <= self.capacity()
        &&& distinct_values(pq)
        &&& distinct_values(eq)
        &&& forall|i: int| 0 <= i < pq.len() ==> holds_id(p, #[trigger] pq[i].value())
        &&& forall|i: int| 0 <= i < eq.len() ==> holds_id(e, #[trigger] eq[i].value())
        &&& increasing_values(pq)
        &&& forall|i: int, j: int|
            0 <= i < pq.len() && 0 <= j < e.len() ==> #[trigger] pq[i].value() > #[trigger] e[j].id.value()
    }

    /// Creates an empty pool whose event queues hold
    /// `config.task_event_buffer_size` identifiers each. The given limits
    /// are not enforced; the counters start at zero with the default limits.
    fn new(pool_id: Id, config: PoolConfig, limits: PoolConnectionLimits) -> (r: Self)
        ensures
            r.wf(),
            r.pool_id() == pool_id,
            r.pending_view() == Seq::<PoolConnection<T, Id>>::empty(),
            r.established_view() == Seq::<PoolConnection<T, Id>>::empty(),
            r.pending_queue() == Seq::<ConnectionId<Id>>::empty(),
            r.established_queue() == Seq::<ConnectionId<Id>>::empty(),
            r.last_id().value() == 0,
            r.capacity() == config.task_event_buffer_size,
            r.counters().injected == 0,
            r.counters().pending_incoming == 0,
            r.counters().pending_outgoing == 0,
            r.counters().established_incoming == 0,
            r.counters().established_outgoing == 0,
            default_limits(r.counters().limits),
    {
        let _ = limits;
        let pool = PoolState {
            pool_id,
            counters: PoolConnectionCounters::default(),
            last_connection_id: ConnectionId::new(Id::zero()),
            pending: Vec::new(),
            established: Vec::new(),
            event_buffer_size: config.task_event_buffer_size,
            pending_connection_events: Vec::new(),
            established_connection_events: Vec::new(),
        };
        proof {
            assert(pool.pending_view() =~= Seq::<PoolConnection<T, Id>>::empty());
            assert(pool.established_view() =~= Seq::<PoolConnection<T, Id>>::empty());
        }
        pool
    }

    /// Counts one more connection handed to the pool.
    fn inject_connection(&mut self)
        requires
            old(self).wf(),
            old(self).counters().injected < u32::MAX,
        ensures
            final(self).wf(),
            final(self).counters().injected == old(self).counters().injected + 1,
            final(self).counters().pending_incoming == old(self).counters().pending_incoming,
            final(self).counters().established_incoming == old(self).counters().established_incoming,
            final(self).counters().pending_outgoing == old(self).counters().pending_outgoing,
            final(self).counters().established_outgoing == old(self).counters().established_outgoing,
            final(self).counters().limits == old(self).counters().limits,
            final(self).pending_view() == old(self).pending_view(),
            final(self).established_view() == old(self).established_view(),
            final(self).pending_queue() == old(self).pending_queue(),
            final(self).established_queue() == old(self).established_queue(),
            final(self).last_id() == old(self).last_id(),
            final(self).capacity() == old(self).capacity(),
            final(self).pool_id() == old(self).pool_id(),
    {
        self.counters.injected = self.counters.injected + 1;
    }

    /// Takes the oldest identifier out of the established event queue.
    fn eject_connection(&mut self) -> (r: Result<ConnectionId<Id>, TryRecvError>)
        requires
            old(self).wf(),
        ensures
            final(self).wf(),
            eject_step(Pool { state: *old(self) }, Pool { state: *final(self) }, r),
    {
        if self.established_connection_events.len() == 0 {
            Err(TryRecvError::Empty)
        } else {
            let id = self.established_connection_events.remove(0);
            proof {
                let eq = old(self).established_queue();
                assert(holds_id(self.established_view(), eq[0].value()));
                assert forall|i: int| 0 <= i < self.established_queue().len() implies holds_id(
                    self.established_view(),
                    #[trigger] self.established_queue()[i].value(),
                ) by {
                    assert(self.established_queue()[i] == eq[i + 1]);
                }
                assert forall|i: int, j: int|
                    0 <= i < j < self.established_queue().len() implies self.established_queue()[i].value()
                    != self.established_queue()[j].value() by {
                    assert(self.established_queue()[i] == eq[i + 1]);
                    assert(self.established_queue()[j] == eq[j + 1]);
                }
            }
            Ok(id)
        }
    }

    /// The established connection with identifier `id`, if there is one.
    fn get_established_connection(&self, id: ConnectionId<Id>) -> (r: Option<&PoolConnection<T, Id>>)
        requires
            self.wf(),
        ensures
            r is None <==> !holds_id(self.established_view(), id.value()),
            r is Some ==> exists|i: int|
                0 <= i < self.established_view().len() && self.established_view()[i] == *r->Some_0
                    && #[trigger] self.established_view()[i].id.value() == id.value(),
    {
        let mut i: usize = 0;
        while i < self.established.len()
            invariant
                0 <= i <= self.established@.len(),
                self.established_view().len() == self.established@.len(),
                forall|k: int| 0 <= k < i ==> self.established_view()[k].id.value() != id.value(),
            decreases self.established@.len() - i,
        {
            if self.established[i].0.id.same_as(&id) {
                proof {
                    assert(self.established_view()[i as int] == self.established@[i as int].0);
                }
                return Some(&self.established[i].0);
            }
            proof {
                assert(self.established_view()[i as int] == self.established@[i as int].0);
            }
            i = i + 1;
        }
        None
    }

    /// An empty state that stands in while a pool's state is updated.
    fn placeholder() -> (r: Self)
        ensures
            r.wf(),
    {
        PoolState::new(Id::zero(), PoolConfig { task_event_buffer_size: 0 }, PoolConnectionLimits::default())
    }
}

/// A connection pool.
pub struct Pool<T, Id: ConnectionIdValue> {
    state: PoolState<T, Id>,
}

impl<T, Id: ConnectionIdValue> Pool<T, Id> {
    /// The pending connections, oldest first.
    pub closed spec fn pending_view(&self) -> Seq<PoolConnection<T, Id>> {
        self.state.pending_view()
    }

    /// The established connections, oldest first.
    pub closed spec fn established_view(&self) -> Seq<PoolConnection<T, Id>> {
        self.state.established_view()
    }

    /// The identifiers waiting in the pending event queue.
    pub closed spec fn pending_queue(&self) -> Seq<ConnectionId<Id>> {
        self.state.pending_queue()
    }

    /// The identifiers waiting in the established event queue.
    pub closed spec fn established_queue(&self) -> Seq<ConnectionId<Id>> {
        self.state.established_queue()
    }

    /// The identifier given to the latest connection (zero before any).
    pub closed spec fn last_id(&self) -> ConnectionId<Id> {
        self.state.last_id()
    }

    /// The capacity of each event queue.
    pub closed spec fn capacity(&self) -> nat {
        self.state.capacity()
    }

    /// The counters of the pool.
    pub closed spec fn counters(&self) -> PoolConnectionCounters {
        self.state.counters()
    }

    /// The identifier of the pool.
    pub closed spec fn pool_id(&self) -> Id {
        self.state.pool_id()
    }

    /// The invariant of the pool.
    ///
    /// Connections are numbered 1, 2, ... in the order in which they arrive;
    /// each of them is either pending or established, never both; the
    /// counters count them; the event queues hold distinct identifiers of
    /// pending (resp. established) connections in increasing order, with the
    /// pending ones above every established one, and do not exceed their
    /// capacity. Every pool keeps it.
    pub closed spec fn wf(&self) -> bool {
        self.state.wf()
    }

    #[verifier::type_invariant]
    spec fn state_wf(&self) -> bool {
        self.state.wf()
    }

    /// Creates an empty pool whose event queues hold
    /// `config.task_event_buffer_size` identifiers each. The given limits
    /// are not enforced; the counters start at zero with the default limits.
    pub fn new(pool_id: Id, config: PoolConfig, limits: PoolConnectionLimits) -> (r: Self)
        ensures
            r.wf(),
            r.pool_id() == pool_id,
            r.pending_view() == Seq::<PoolConnection<T, Id>>::empty(),
            r.established_view() == Seq::<PoolConnection<T, Id>>::empty(),
            r.pending_queue() == Seq::<ConnectionId<Id>>::empty(),
            r.established_queue() == Seq::<ConnectionId<Id>>::empty(),
            r.last_id().value() == 0,
            r.capacity() == config.task_event_buffer_size,
            r.counters().injected == 0,
            r.counters().pending_incoming == 0,
            r.counters().pending_outgoing == 0,
            r.counters().established_incoming == 0,
            r.counters().established_outgoing == 0,
            default_limits(r.counters().limits),
    {
        Pool { state: PoolState::new(pool_id, config, limits) }
    }

    /// Counts one more connection handed to the pool.
    pub fn inject_connection(&mut self)
        requires
            old(self).counters().injected < u32::MAX,
        ensures
            final(self).wf(),
            final(self).counters().injected == old(self).counters().injected + 1,
            final(self).counters().pending_incoming == old(self).counters().pending_incoming,
            final(self).counters().established_incoming == old(self).counters().established_incoming,
            final(self).counters().pending_outgoing == old(self).counters().pending_outgoing,
            final(self).counters().established_outgoing == old(self).counters().established_outgoing,
            final(self).counters().limits == old(self).counters().limits,
            final(self).pending_view() == old(self).pending_view(),
            final(self).established_view() == old(self).established_view(),
            final(self).pending_queue() == old(self).pending_queue(),
            final(self).established_queue() == old(self).established_queue(),
            final(self).last_id() == old(self).last_id(),
            final(self).capacity() == old(self).capacity(),
            final(self).pool_id() == old(self).pool_id(),
    {
        proof {
            use_type_invariant(&*self);
        }
        let mut state = PoolState::placeholder();
        std::mem::swap(&mut state, &mut self.state);
        state.inject_connection();
        std::mem::swap(&mut state, &mut self.state);
    }

    /// Whether counting one more connection would overflow the counter.
    pub fn inject_overflows(&self) -> (r: bool)
        ensures
            r == !(self.counters().injected < u32::MAX),
    {
        self.state.counters.injected == u32::MAX
    }

    /// Takes the oldest identifier out of the established event queue.
    pub fn eject_connection(&mut self) -> (r: Result<ConnectionId<Id>, TryRecvError>)
        ensures
            final(self).wf(),
            eject_step(*old(self), *final(self), r),
    {
        proof {
            use_type_invariant(&*self);
        }
        let mut state = PoolState::placeholder();
        std::mem::swap(&mut state, &mut self.state);
        let r = state.eject_connection();
        std::mem::swap(&mut state, &mut self.state);
        r
    }

    /// The established connection with identifier `id`, if there is one.
    pub fn get_established_connection(&self, id: ConnectionId<Id>) -> (r: Option<&PoolConnection<T, Id>>)
        ensures
            self.wf(),
            r is None <==> !holds_id(self.established_view(), id.value()),
            r is Some ==> exists|i: int|
                0 <= i < self.established_view().len() && self.established_view()[i] == *r->Some_0
                    && #[trigger] self.established_view()[i].id.value() == id.value(),
    {
        proof {
            use_type_invariant(self);
        }
        let r = self.state.get_established_connection(id);
        proof {
            if r is Some {
                let ev = self.state.established_view();
                let i = choose|i: int| 0 <= i < ev.len() && ev[i] == *r->Some_0 && #[trigger] ev[i].id.value() == id.value();
                assert(self.established_view()[i] == *r->Some_0);
            }
        }
        r
    }

    /// Whether the counters would overflow on the next step of the polling
    /// loop with the given input kind (a completed task or none left).
    pub fn step_overflows(&self, connection_ready: bool) -> (r: bool)
        ensures
            self.wf(),
            connection_ready ==> r == !(self.last_id().value() < Id::max_id_value()
                && self.pending_view().len() < u32::MAX),
            !connection_ready ==> r == (self.pending_queue().len() > 0 && !(self.established_view().len()
                < u32::MAX)),
    {
        proof {
            use_type_invariant(self);
        }
        if connection_ready {
            self.state.pending.len() >= u32::MAX as usize || !self.state.last_connection_id.0.below_max()
        } else {
            self.state.pending_connection_events.len() > 0 && self.state.established.len() >= u32::MAX as usize
        }
    }

    /// One step of the polling loop of the pool (see [`poll_transition`]).
    pub fn poll_event(&mut self, input: PoolInput<T>, result: &mut Vec<ConnectionId<Id>>) -> (r: PollAction)
        requires
            input is Ready ==> old(self).last_id().value() < Id::max_id_value()
                && old(self).pending_view().len() < u32::MAX,
            input is Exhausted && old(self).pending_queue().len() > 0 ==> old(self).established_view().len()
                < u32::MAX,
        ensures
            old(self).wf(),
            final(self).wf(),
            poll_transition(*old(self), input, *final(self), old(result)@, final(result)@, r),
    {
        proof {
            use_type_invariant(&*self);
        }
        let mut state = PoolState::placeholder();
        std::mem::swap(&mut state, &mut self.state);
        let r = state.poll_event(input, result);
        std::mem::swap(&mut state, &mut self.state);
        r
    }
}

/// One call of `eject_connection`: `pre` before, `post` after, `r` returned.
///
/// The oldest identifier of the established event queue is taken out and
/// returned; an empty queue gives `Empty`, and nothing else changes.
pub open spec fn eject_step<T, Id: ConnectionIdValue>(
    pre: Pool<T, Id>,
    post: Pool<T, Id>,
    r: Result<ConnectionId<Id>, TryRecvError>,
) -> bool {
    &&& pre.established_queue().len() == 0 ==> r == Err::<ConnectionId<Id>, TryRecvError>(
        TryRecvError::Empty,
    ) && post.established_queue() == pre.established_queue()
    &&& pre.established_queue().len() > 0 ==> r == Ok::<ConnectionId<Id>, TryRecvError>(
        pre.established_queue()[0],
    ) && post.established_queue() == pre.established_queue().drop_first()
    &&& r is Ok ==> holds_id(post.established_view(), r->Ok_0.value())
    &&& post.pending_view() == pre.pending_view()
    &&& post.established_view() == pre.established_view()
    &&& post.pending_queue() == pre.pending_queue()
    &&& post.last_id() == pre.last_id()
    &&& post.capacity() == pre.capacity()
    &&& post.counters() == pre.counters()
    &&& post.pool_id() == pre.pool_id()
}

/// One step of the polling loop: `pre` and `pre_result` before the step,
/// `post`, `post_result` and the action `r` after it, on the given input.
///
/// With a completed connection task, the connection gets the next
/// identifier, becomes pending, and its identifier is queued as a pending
/// event if the queue has room. With no task left, the oldest pending event
/// is read: its connection is established, its identifier queued as an
/// established event if that queue has room, and added to the result. With
/// no pending event either, the loop finishes if the result holds an
/// identifier and polls again otherwise.
pub open spec fn poll_transition<T, Id: ConnectionIdValue>(
    pre: Pool<T, Id>,
    input: PoolInput<T>,
    post: Pool<T, Id>,
    pre_result: Seq<ConnectionId<Id>>,
    post_result: Seq<ConnectionId<Id>>,
    r: PollAction,
) -> bool {
    &&& post.capacity() == pre.capacity()
    &&& post.pool_id() == pre.pool_id()
    &&& post.counters().injected == pre.counters().injected
    &&& post.counters().pending_outgoing == pre.counters().pending_outgoing
    &&& post.counters().established_outgoing == pre.counters().established_outgoing
    &&& post.counters().limits == pre.counters().limits
    &&& pre.established_view().is_prefix_of(post.established_view())
    &&& match input {
        PoolInput::Ready(conn) => {
            &&& r == PollAction::Continue
            &&& post.last_id().value() == pre.last_id().value() + 1
            &&& post.pending_view() == pre.pending_view().push(
                PoolConnection { id: post.last_id(), conn },
            )
            &&& post.established_view() == pre.established_view()
            &&& post.pending_queue() == if pre.pending_queue().len() < pre.capacity() {
                pre.pending_queue().push(post.last_id())
            } else {
                pre.pending_queue()
            }
            &&& post.established_queue() == pre.established_queue()
            &&& post_result == pre_result
        },
        PoolInput::Exhausted => if pre.pending_queue().len() > 0 {
            let pid = pre.pending_queue()[0];
            &&& r == PollAction::Continue
            &&& post.last_id() == pre.last_id()
            &&& post.pending_queue() == pre.pending_queue().drop_first()
            &&& exists|i: int|
                0 <= i < pre.pending_view().len()
                    && #[trigger] pre.pending_view()[i].id == pid
                    && post.pending_view() == pre.pending_view().remove(i)
                    && post.established_view() == pre.established_view().push(
                    pre.pending_view()[i],
                )
            &&& post.established_queue() == if pre.established_queue().len()
                < pre.capacity() {
                pre.established_queue().push(pid)
            } else {
                pre.established_queue()
            }
            &&& post_result == pre_result.push(pid)
        } else {
            &&& r == if pre_result.len() > 0 {
                PollAction::Finish
            } else {
                PollAction::Continue
            }
            &&& post.last_id() == pre.last_id()
            &&& post.pending_view() == pre.pending_view()
            &&& post.established_view() == pre.established_view()
            &&& post.pending_queue() == pre.pending_queue()
            &&& post.established_queue() == pre.established_queue()
            &&& post_result == pre_result
        },
    }
}

/// An identifier value held by `s` stays held after appending to `s`.
proof fn lemma_holds_id_push<T, Id: ConnectionIdValue>(s: Seq<PoolConnection<T, Id>>, x: PoolConnection<T, Id>, v: int)
    requires
        holds_id(s, v),
    ensures
        holds_id(s.push(x), v),
{
    let j = choose|j: int| 0 <= j < s.len() && #[trigger] s[j].id.value() == v;
    assert(s.push(x)[j] == s[j]);
}

/// An identifier value held by `s` stays held after removing another entry.
proof fn lemma_holds_id_remove<T, Id: ConnectionIdValue>(s: Seq<PoolConnection<T, Id>>, idx: int, v: int)
    requires
        0 <= idx < s.len(),
        holds_id(s, v),
        s[idx].id.value() != v,
    ensures
        holds_id(s.remove(idx), v),
{
    let j = choose|j: int| 0 <= j < s.len() && #[trigger] s[j].id.value() == v;
    if j < idx {
        assert(s.remove(idx)[j] == s[j]);
    } else {
        assert(s.remove(idx)[j - 1] == s[j]);
    }
}

impl<T, Id: ConnectionIdValue> PoolState<T, Id> {
    /// The position of the pending connection with identifier `id`.
    fn find_pending(&self, id: &ConnectionId<Id>) -> (r: Option<usize>)
        ensures
            r is None ==> forall|k: int|
                0 <= k < self.pending_view().len() ==> self.pending_view()[k].id.value() != id.value(),
            r is Some ==> r->Some_0 < self.pending_view().len() && self.pending_view()[r->Some_0 as int].id.value()
                == id.value(),
    {
        let mut i: usize = 0;
        while i < self.pending.len()
            invariant
                0 <= i <= self.pending@.len(),
                self.pending_view().len() == self.pending@.len(),
                forall|k: int| 0 <= k < i ==> self.pending_view()[k].id.value() != id.value(),
            decreases self.pending@.len() - i,
        {
            proof {
                assert(self.pending_view()[i as int] == self.pending@[i as int].0);
            }
            if self.pending[i].0.id.same_as(id) {
                return Some(i);
            }
            i = i + 1;
        }
        None
    }

    /// One step of the polling loop of the pool.
    ///
    /// With a completed connection task, the connection gets the next
    /// identifier, becomes pending, and its identifier is queued as a pending
    /// event if the queue has room. With no task left, the oldest pending
    /// event is read: its connection is established, its identifier queued as
    /// an established event if that queue has room, and added to `result`.
    /// With no pending event either, the loop finishes if `result` holds an
    /// identifier and polls again otherwise.
    fn poll_event(&mut self, input: PoolInput<T>, result: &mut Vec<ConnectionId<Id>>) -> (r: PollAction)
        requires
            old(self).wf(),
            input is Ready ==> old(self).last_id().value() < Id::max_id_value()
                && old(self).pending_view().len() < u32::MAX,
            input is Exhausted && old(self).pending_queue().len() > 0 ==> old(self).established_view().len()
                < u32::MAX,
        ensures
            final(self).wf(),
            poll_transition(
                Pool { state: *old(self) },
                input,
                Pool { state: *final(self) },
                old(result)@,
                final(result)@,
                r,
            ),
    {
        match input {
            PoolInput::Ready(conn) => {
                let ghost old_p = self.pending_view();
                let connection_id = self.last_connection_id.incr();
                self.pending.push(PendingConnection(PoolConnection { id: connection_id, conn }));
                self.counters.pending_incoming = self.counters.pending_incoming + 1;
                if self.pending_connection_events.len() < self.event_buffer_size {
                    self.pending_connection_events.push(connection_id);
                }
                proof {
                    let new_entry = PoolConnection { id: connection_id, conn };
                    assert(self.pending_view() =~= old_p.push(new_entry));
                    let p = self.pending_view();
                    let pq = self.pending_queue();
                    let opq = old(self).pending_queue();
                    assert forall|i: int| 0 <= i < pq.len() implies holds_id(p, #[trigger] pq[i].value()) by {
                        if i < opq.len() {
                            assert(pq[i] == opq[i]);
                            lemma_holds_id_push(old_p, new_entry, pq[i].value());
                        } else {
                            assert(pq[i] == connection_id);
                            assert(p[old_p.len() as int] == new_entry);
                            assert(p[old_p.len() as int].id.value() == pq[i].value());
                        }
                    }
                    assert forall|i: int, j: int| 0 <= i < j < pq.len() implies pq[i].value() != pq[j].value() by {
                        if j >= opq.len() {
                            assert(pq[i] == opq[i]);
                            assert(holds_id(old_p, opq[i].value()));
                        } else {
                            assert(pq[i] == opq[i]);
                            assert(pq[j] == opq[j]);
                        }
                    }
                    assert forall|i: int, j: int| 0 <= i < j < p.len() implies p[i].id.value() != p[j].id.value() by {
                        if j == p.len() - 1 {
                            assert(p[i] == old_p[i]);
                        } else {
                            assert(p[i] == old_p[i]);
                            assert(p[j] == old_p[j]);
                        }
                    }
                    assert forall|i: int| 0 <= i < p.len() implies 1 <= #[trigger] p[i].id.value()
                        <= connection_id.value() by {
                        if i < old_p.len() {
                            assert(p[i] == old_p[i]);
                        }
                    }
                    let e = self.established_view();
                    assert forall|i: int, j: int| 0 <= i < p.len() && 0 <= j < e.len() implies #[trigger] p[i].id.value()
                        != #[trigger] e[j].id.value() by {
                        if i < old_p.len() {
                            assert(p[i] == old_p[i]);
                        }
                    }
                }
                PollAction::Continue
            },
            PoolInput::Exhausted => {
                if self.pending_connection_events.len() > 0 {
                    let ghost old_p = self.pending_view();
                    let ghost old_e = self.established_view();
                    let ghost old_pq = self.pending_queue();
                    let ghost old_eq = self.established_queue();
                    let pending_id = self.pending_connection_events.remove(0);
                    match self.find_pending(&pending_id) {
                        Some(idx) => {
                            let PendingConnection(pool_connection) = self.pending.remove(idx);
                            let id_clone = pool_connection.id;
                            proof {
                                Id::lemma_id_value_injective(id_clone.0, pending_id.0);
                                assert(id_clone == pending_id);
                                assert(old_p[idx as int] == pool_connection);
                            }
                            self.counters.pending_incoming = self.counters.pending_incoming - 1;
                            self.established.push(EstablishedConnection(pool_connection));
                            if self.established_connection_events.len() < self.event_buffer_size {
                                self.established_connection_events.push(id_clone);
                            }
                            self.counters.established_incoming = self.counters.established_incoming + 1;
                            result.push(id_clone);
                            proof {
                                let v = pending_id.value();
                                let p = self.pending_view();
                                let e = self.established_view();
                                let pq = self.pending_queue();
                                let eq = self.established_queue();
                                assert(p =~= old_p.remove(idx as int));
                                assert(e =~= old_e.push(old_p[idx as int]));
                                assert(pq =~= old_pq.drop_first());
                                assert forall|i: int| 0 <= i < p.len() implies 1 <= #[trigger] p[i].id.value()
                                    <= self.last_id().value() by {
                                    if i < idx {
                                        assert(p[i] == old_p[i]);
                                    } else {
                                        assert(p[i] == old_p[i + 1]);
                                    }
                                }
                                assert forall|i: int| 0 <= i < e.len() implies 1 <= #[trigger] e[i].id.value()
                                    <= self.last_id().value() by {
                                    if i < old_e.len() {
                                        assert(e[i] == old_e[i]);
                                    }
                                }
                                assert forall|i: int, j: int| 0 <= i < j < p.len() implies p[i].id.value()
                                    != p[j].id.value() by {
                                    let a = if i < idx { i } else { i + 1 };
                                    let b = if j < idx { j } else { j + 1 };
                                    assert(p[i] == old_p[a]);
                                    assert(p[j] == old_p[b]);
                                }
                                assert forall|i: int, j: int| 0 <= i < j < e.len() implies e[i].id.value()
                                    != e[j].id.value() by {
                                    assert(e[i] == old_e[i]);
                                    if j < old_e.len() {
                                        assert(e[j] == old_e[j]);
                                    }
                                }
                                assert forall|i: int, j: int| 0 <= i < p.len() && 0 <= j < e.len() implies #[trigger] p[i].id.value()
                                    != #[trigger] e[j].id.value() by {
                                    let a = if i < idx { i } else { i + 1 };
                                    assert(p[i] == old_p[a]);
                                    if j < old_e.len() {
                                        assert(e[j] == old_e[j]);
                                    }
                                }
                                assert forall|i: int| 0 <= i < pq.len() implies holds_id(p, #[trigger] pq[i].value()) by {
                                    assert(pq[i] == old_pq[i + 1]);
                                    assert(holds_id(old_p, old_pq[i + 1].value()));
                                    lemma_holds_id_remove(old_p, idx as int, old_pq[i + 1].value());
                                }
                                assert forall|i: int, j: int| 0 <= i < j < pq.len() implies pq[i].value()
                                    != pq[j].value() by {
                                    assert(pq[i] == old_pq[i + 1]);
                                    assert(pq[j] == old_pq[j + 1]);
                                }
                                assert forall|i: int| 0 <= i < eq.len() implies holds_id(e, #[trigger] eq[i].value()) by {
                                    if i < old_eq.len() {
                                        assert(eq[i] == old_eq[i]);
                                        lemma_holds_id_push(old_e, old_p[idx as int], old_eq[i].value());
                                    } else {
                                        assert(e[e.len() - 1] == old_p[idx as int]);
                                    }
                                }
                                assert forall|i: int, j: int| 0 <= i < j < eq.len() implies eq[i].value()
                                    != eq[j].value() by {
                                    assert(eq[i] == old_eq[i]);
                                    if j < old_eq.len() {
                                        assert(eq[j] == old_eq[j]);
                                    } else {
                                        let w = choose|w: int| 0 <= w < old_e.len() && #[trigger] old_e[w].id.value() == old_eq[i].value();
                                        assert(old_p[idx as int].id.value() != old_e[w].id.value());
                                    }
                                }
                                assert(old_e.is_prefix_of(e));
                                let pre = Pool { state: *old(self) };
                                let post = Pool { state: *self };
                                assert(pre.pending_view() == old_p);
                                assert(post.pending_view() == p);
                                assert(post.established_view() == e);
                                assert(pre.pending_view()[idx as int].id == pending_id);
                            }
                            PollAction::Continue
                        },
                        None => {
                            proof {
                                assert(holds_id(old_p, old_pq[0].value()));
                            }
                            PollAction::Finish
                        },
                    }
                } else if result.len() > 0 {
                    proof {
                        assert(self.established_view().is_prefix_of(self.established_view()));
                    }
                    PollAction::Finish
                } else {
                    proof {
                        assert(self.established_view().is_prefix_of(self.established_view()));
                    }
                    PollAction::Continue
                }
            },
        }
    }
}


/// Every connection that the pool has numbered is pending or established,
/// and the counters count the pending and the established ones.
pub proof fn lemma_pool_accounts_for_connections<T, Id: ConnectionIdValue>(pool: Pool<T, Id>)
    requires
        pool.wf(),
    ensures
        pool.pending_view().len() + pool.established_view().len() == pool.last_id().value(),
        pool.counters().pending_incoming == pool.pending_view().len(),
        pool.counters().established_incoming == pool.established_view().len(),
{
}

/// No identifier names two connections of the pool, and every identifier
/// lies between one and the latest identifier given out.
pub proof fn lemma_pool_ids_unique<T, Id: ConnectionIdValue>(pool: Pool<T, Id>)
    requires
        pool.wf(),
    ensures
        distinct_ids(pool.pending_view() + pool.established_view()),
        forall|i: int|
            0 <= i < (pool.pending_view() + pool.established_view()).len() ==> 1 <= #[trigger] (
            pool.pending_view() + pool.established_view())[i].id.value() <= pool.last_id().value(),
{
    let p = pool.pending_view();
    let e = pool.established_view();
    let s = p + e;
    assert forall|i: int, j: int| 0 <= i < j < s.len() implies s[i].id.value() != s[j].id.value() by {
        if j < p.len() {
        } else if i < p.len() {
            assert(s[i] == p[i]);
            assert(s[j] == e[j - p.len()]);
        } else {
            assert(s[i] == e[i - p.len()]);
            assert(s[j] == e[j - p.len()]);
        }
    }
    assert forall|i: int| 0 <= i < s.len() implies 1 <= #[trigger] s[i].id.value() <= pool.last_id().value() by {
        if i >= p.len() {
            assert(s[i] == e[i - p.len()]);
        }
    }
}

/// The event queues hold at most their capacity, name each connection at
/// most once, and name only pending (resp. established) connections.
pub proof fn lemma_pool_queues<T, Id: ConnectionIdValue>(pool: Pool<T, Id>)
    requires
        pool.wf(),
    ensures
        pool.pending_queue().len() <= pool.capacity(),
        pool.established_queue().len() <= pool.capacity(),
        distinct_values(pool.pending_queue()),
        distinct_values(pool.established_queue()),
        forall|i: int|
            0 <= i < pool.pending_queue().len() ==> holds_id(pool.pending_view(), #[trigger] pool.pending_queue()[i].value()),
        forall|i: int|
            0 <= i < pool.established_queue().len() ==> holds_id(
                pool.established_view(),
                #[trigger] pool.established_queue()[i].value(),
            ),
{
}

/// A connection that completes while the pending event queue is empty is
/// established by the next step with no task left, which reports its
/// identifier.
pub proof fn lemma_arrival_is_established<T, Id: ConnectionIdValue>(
    p0: Pool<T, Id>,
    conn: T,
    p1: Pool<T, Id>,
    res0: Seq<ConnectionId<Id>>,
    res1: Seq<ConnectionId<Id>>,
    a1: PollAction,
    p2: Pool<T, Id>,
    res2: Seq<ConnectionId<Id>>,
    a2: PollAction,
)
    requires
        p0.wf(),
        p1.wf(),
        p0.pending_queue().len() == 0,
        p0.capacity() > 0,
        poll_transition(p0, PoolInput::Ready(conn), p1, res0, res1, a1),
        poll_transition(p1, PoolInput::Exhausted, p2, res1, res2, a2),
    ensures
        a2 == PollAction::Continue,
        res2 == res0.push(p1.last_id()),
        p2.pending_view() == p0.pending_view(),
        p2.established_view() == p0.established_view().push(PoolConnection { id: p1.last_id(), conn }),
{
    let p = p1.pending_view();
    let n = p0.pending_view().len() as int;
    assert(p1.pending_queue() =~= seq![p1.last_id()]);
    let pid = p1.pending_queue()[0];
    let i = choose|i: int|
        0 <= i < p.len() && #[trigger] p[i].id == pid && p2.pending_view() == p.remove(i)
            && p2.established_view() == p1.established_view().push(p[i]);
    assert(p[n].id == pid);
    if i != n {
        assert(p[i].id.value() != p[n].id.value());
    }
    assert(p.remove(n) =~= p0.pending_view());
}

/// The identifiers that the polling loop reports name established
/// connections, and keep naming them after further steps.
pub proof fn lemma_reported_ids_established<T, Id: ConnectionIdValue>(
    p1: Pool<T, Id>,
    input: PoolInput<T>,
    p2: Pool<T, Id>,
    res1: Seq<ConnectionId<Id>>,
    res2: Seq<ConnectionId<Id>>,
    r: PollAction,
)
    requires
        p1.wf(),
        poll_transition(p1, input, p2, res1, res2, r),
        forall|k: int| 0 <= k < res1.len() ==> holds_id(p1.established_view(), #[trigger] res1[k].value()),
    ensures
        forall|k: int| 0 <= k < res2.len() ==> holds_id(p2.established_view(), #[trigger] res2[k].value()),
{
    let e1 = p1.established_view();
    let e2 = p2.established_view();
    assert forall|k: int| 0 <= k < res2.len() implies holds_id(e2, #[trigger] res2[k].value()) by {
        if k < res1.len() {
            assert(res2[k] == res1[k]);
            let j = choose|j: int| 0 <= j < e1.len() && #[trigger] e1[j].id.value() == res1[k].value();
            assert(e2[j] == e1[j]);
        } else {
            let pid = p1.pending_queue()[0];
            let p = p1.pending_view();
            let i = choose|i: int|
                0 <= i < p.len() && #[trigger] p[i].id == pid && p2.pending_view() == p.remove(i)
                    && e2 == e1.push(p[i]);
            assert(e2[e1.len() as int] == p[i]);
        }
    }
}

/// A run of the polling loop: `pools[i]` steps on `inputs[i]` to
/// `pools[i + 1]` while the collected identifiers go from `results[i]` to
/// `results[i + 1]` and the step answers `actions[i]`. The identifiers start
/// empty, every step but the last polls again, and the last one finishes.
pub open spec fn poll_run<T, Id: ConnectionIdValue>(
    pools: Seq<Pool<T, Id>>,
    inputs: Seq<PoolInput<T>>,
    results: Seq<Seq<ConnectionId<Id>>>,
    actions: Seq<PollAction>,
) -> bool {
    &&& inputs.len() > 0
    &&& pools.len() == inputs.len() + 1
    &&& results.len() == inputs.len() + 1
    &&& actions.len() == inputs.len()
    &&& results[0] == Seq::<ConnectionId<Id>>::empty()
    &&& forall|i: int| 0 <= i < pools.len() ==> #[trigger] pools[i].wf()
    &&& forall|i: int|
        0 <= i < inputs.len() ==> poll_transition(
            pools[i],
            #[trigger] inputs[i],
            pools[i + 1],
            results[i],
            results[i + 1],
            actions[i],
        )
    &&& forall|i: int| 0 <= i < inputs.len() - 1 ==> #[trigger] actions[i] == PollAction::Continue
    &&& actions.last() == PollAction::Finish
}

/// The polling loop ran on a pool from `pre` to `post` and returned `ids`.
pub open spec fn poll_returned<T, Id: ConnectionIdValue>(
    pre: Pool<T, Id>,
    post: Pool<T, Id>,
    ids: Seq<ConnectionId<Id>>,
) -> bool {
    exists|pools: Seq<Pool<T, Id>>, inputs: Seq<PoolInput<T>>, results: Seq<Seq<ConnectionId<Id>>>, actions: Seq<PollAction>|
        #[trigger] poll_run(pools, inputs, results, actions) && pools[0] == pre && pools.last() == post
            && results.last() == ids
}

/// What a run of the polling loop keeps, from its start `p0` to the pool
/// `pn` with collected identifiers `res`: the identifiers strictly increase,
/// each is above every identifier established at the start, the established
/// connections grow by exactly the connections they name, in their order,
/// and, from an empty established event queue, that queue holds them as long
/// as they fit.
pub open spec fn run_keeps<T, Id: ConnectionIdValue>(
    p0: Pool<T, Id>,
    pn: Pool<T, Id>,
    res: Seq<ConnectionId<Id>>,
) -> bool {
    let e0 = p0.established_view();
    let en = pn.established_view();
    &&& increasing_values(res)
    &&& forall|k: int, j: int| 0 <= k < res.len() && 0 <= j < e0.len() ==> #[trigger] res[k].value() > #[trigger] e0[j].id.value()
    &&& e0.is_prefix_of(en)
    &&& en.len() == e0.len() + res.len()
    &&& forall|k: int| 0 <= k < res.len() ==> #[trigger] en[e0.len() + k].id == res[k]
    &&& pn.capacity() == p0.capacity()
    &&& p0.established_queue().len() == 0 && res.len() <= p0.capacity() ==> pn.established_queue() == res
}

proof fn lemma_run_keeps<T, Id: ConnectionIdValue>(
    pools: Seq<Pool<T, Id>>,
    inputs: Seq<PoolInput<T>>,
    results: Seq<Seq<ConnectionId<Id>>>,
    actions: Seq<PollAction>,
    n: int,
)
    requires
        poll_run(pools, inputs, results, actions),
        0 <= n <= inputs.len(),
    ensures
        run_keeps(pools[0], pools[n], results[n]),
    decreases n,
{
    let p0 = pools[0];
    let e0 = p0.established_view();
    if n == 0 {
        assert(e0.is_prefix_of(e0));
        if p0.established_queue().len() == 0 {
            assert(p0.established_queue() =~= results[0]);
        }
    } else {
        lemma_run_keeps(pools, inputs, results, actions, n - 1);
        let pm = pools[n - 1];
        let pn = pools[n];
        let rm = results[n - 1];
        let rn = results[n];
        let em = pm.established_view();
        let en = pn.established_view();
        assert(pm.wf());
        assert(pn.wf());
        assert(poll_transition(pm, inputs[n - 1], pn, rm, rn, actions[n - 1]));
        if rn != rm {
            assert(inputs[n - 1] is Exhausted && pm.pending_queue().len() > 0);
            let pid = pm.pending_queue()[0];
            assert(rn == rm.push(pid));
            let pv = pm.pending_view();
            let i = choose|i: int|
                0 <= i < pv.len() && #[trigger] pv[i].id == pid && pn.pending_view() == pv.remove(i)
                    && en == em.push(pv[i]);
            assert(pid.value() == pm.pending_queue()[0].value());
            assert forall|j: int| 0 <= j < em.len() implies pid.value() > #[trigger] em[j].id.value() by {
                assert(pm.pending_queue()[0].value() > em[j].id.value());
            }
            assert forall|a: int, b: int| 0 <= a < b < rn.len() implies rn[a].value() < rn[b].value() by {
                if b == rm.len() {
                    assert(rn[a] == rm[a]);
                    assert(em[e0.len() + a].id == rm[a]);
                }
            }
            assert forall|k: int, j: int| 0 <= k < rn.len() && 0 <= j < e0.len() implies #[trigger] rn[k].value()
                > #[trigger] e0[j].id.value() by {
                if k < rm.len() {
                    assert(rn[k] == rm[k]);
                } else {
                    assert(em[j] == e0[j]);
                }
            }
            assert forall|k: int| 0 <= k < rn.len() implies #[trigger] en[e0.len() + k].id == rn[k] by {
                if k < rm.len() {
                    assert(en[e0.len() + k] == em[e0.len() + k]);
                } else {
                    assert(en[e0.len() + k] == pv[i]);
                }
            }
            assert(e0.is_prefix_of(en)) by {
                assert forall|j: int| 0 <= j < e0.len() implies e0[j] == en[j] by {
                    assert(em[j] == e0[j]);
                    assert(en[j] == em[j]);
                }
            }
            if p0.established_queue().len() == 0 && rn.len() <= p0.capacity() {
                assert(pm.established_queue() == rm);
                assert(pn.established_queue() =~= rn);
            }
        } else {
            assert(en == em) by {
                if inputs[n - 1] is Exhausted && pm.pending_queue().len() > 0 {
                    assert(rn == rm.push(pm.pending_queue()[0]));
                    assert(rn.len() == rm.len() + 1);
                }
            }
            if p0.established_queue().len() == 0 && rn.len() <= p0.capacity() {
                assert(pm.established_queue() == rm);
                if inputs[n - 1] is Exhausted && pm.pending_queue().len() > 0 {
                    assert(rn.len() == rm.len() + 1);
                }
            }
        }
    }
}

/// A run of the polling loop reports new identifiers in increasing order:
/// each is above every identifier established before the run, the run
/// establishes exactly the connections they name, in that order, and, when
/// the established event queue was empty and the identifiers fit in it, the
/// queue holds exactly them afterwards.
pub proof fn lemma_poll_reports_new_ids<T, Id: ConnectionIdValue>(
    pre: Pool<T, Id>,
    post: Pool<T, Id>,
    ids: Seq<ConnectionId<Id>>,
)
    requires
        poll_returned(pre, post, ids),
    ensures
        run_keeps(pre, post, ids),
{
    let (pools, inputs, results, actions) = choose|
        pools: Seq<Pool<T, Id>>,
        inputs: Seq<PoolInput<T>>,
        results: Seq<Seq<ConnectionId<Id>>>,
        actions: Seq<PollAction>,
    |
        #[trigger] poll_run(pools, inputs, results, actions) && pools[0] == pre && pools.last() == post
            && results.last() == ids;
    lemma_run_keeps(pools, inputs, results, actions, inputs.len() as int);
}

/// Two successive runs of the polling loop on a pool: every identifier the
/// first one reports is below every identifier the second one reports, so
/// no identifier is handed out twice.
pub proof fn lemma_successive_polls_increase<T, Id: ConnectionIdValue>(
    p0: Pool<T, Id>,
    p1: Pool<T, Id>,
    a: Seq<ConnectionId<Id>>,
    p2: Pool<T, Id>,
    b: Seq<ConnectionId<Id>>,
)
    requires
        poll_returned(p0, p1, a),
        poll_returned(p1, p2, b),
    ensures
        increasing_values(a),
        increasing_values(b),
        forall|i: int, j: int| 0 <= i < a.len() && 0 <= j < b.len() ==> #[trigger] a[i].value() < #[trigger] b[j].value(),
{
    lemma_poll_reports_new_ids(p0, p1, a);
    lemma_poll_reports_new_ids(p1, p2, b);
    let e0 = p0.established_view();
    let e1 = p1.established_view();
    assert forall|i: int, j: int| 0 <= i < a.len() && 0 <= j < b.len() implies #[trigger] a[i].value()
        < #[trigger] b[j].value() by {
        assert(e1[e0.len() + i].id == a[i]);
        assert(b[j].value() > e1[e0.len() + i].id.value());
    }
}

/// Starting from a pool with no established connection, after runs of the
/// polling loop that returned `rets[0]`, `rets[1]`, ... (with other calls in
/// between that leave the established connections alone), a connection is
/// established exactly when one of the runs reported its identifier.
pub proof fn lemma_established_iff_reported<T, Id: ConnectionIdValue>(
    before: Seq<Pool<T, Id>>,
    after: Seq<Pool<T, Id>>,
    rets: Seq<Seq<ConnectionId<Id>>>,
    v: int,
)
    requires
        rets.len() > 0,
        before.len() == rets.len(),
        after.len() == rets.len(),
        before[0].established_view().len() == 0,
        forall|i: int| 0 <= i < rets.len() ==> poll_returned(#[trigger] before[i], after[i], rets[i]),
        forall|i: int| 0 <= i < rets.len() - 1 ==> #[trigger] after[i].established_view() == before[i + 1].established_view(),
    ensures
        holds_id(after.last().established_view(), v) <==> exists|i: int, k: int|
            0 <= i < rets.len() && 0 <= k < rets[i].len() && #[trigger] rets[i][k].value() == v,
{
    lemma_established_iff_reported_upto(before, after, rets, v, rets.len() - 1);
}

proof fn lemma_established_iff_reported_upto<T, Id: ConnectionIdValue>(
    before: Seq<Pool<T, Id>>,
    after: Seq<Pool<T, Id>>,
    rets: Seq<Seq<ConnectionId<Id>>>,
    v: int,
    m: int,
)
    requires
        0 <= m < rets.len(),
        before.len() == rets.len(),
        after.len() == rets.len(),
        before[0].established_view().len() == 0,
        forall|i: int| 0 <= i < rets.len() ==> poll_returned(#[trigger] before[i], after[i], rets[i]),
        forall|i: int| 0 <= i < rets.len() - 1 ==> #[trigger] after[i].established_view() == before[i + 1].established_view(),
    ensures
        holds_id(after[m].established_view(), v) <==> exists|i: int, k: int|
            0 <= i <= m && 0 <= k < rets[i].len() && #[trigger] rets[i][k].value() == v,
    decreases m,
{
    assert(poll_returned(before[m], after[m], rets[m]));
    lemma_poll_reports_new_ids(before[m], after[m], rets[m]);
    let eb = before[m].established_view();
    let ea = after[m].established_view();
    let r = rets[m];
    if m > 0 {
        lemma_established_iff_reported_upto(before, after, rets, v, m - 1);
        assert(after[m - 1].established_view() == eb);
    }
    if holds_id(ea, v) {
        let j = choose|j: int| 0 <= j < ea.len() && #[trigger] ea[j].id.value() == v;
        if j < eb.len() {
            assert(eb[j] == ea[j]);
            assert(holds_id(eb, v));
        } else {
            let k = j - eb.len();
            assert(ea[eb.len() + k].id == r[k]);
            assert(rets[m][k].value() == v);
        }
    }
    if exists|i: int, k: int| 0 <= i <= m && 0 <= k < rets[i].len() && #[trigger] rets[i][k].value() == v {
        let (i, k) = choose|i: int, k: int| 0 <= i <= m && 0 <= k < rets[i].len() && #[trigger] rets[i][k].value() == v;
        if i == m {
            assert(ea[eb.len() + k].id == r[k]);
            assert(ea[eb.len() + k].id.value() == v);
        } else {
            assert(holds_id(eb, v));
            let j = choose|j: int| 0 <= j < eb.len() && #[trigger] eb[j].id.value() == v;
            assert(ea[j] == eb[j]);
        }
    }
}

/// Successive calls of `eject_connection` hand out the established event
/// queue in order, then report it empty.
pub proof fn lemma_ejects_drain_queue<T, Id: ConnectionIdValue>(
    pools: Seq<Pool<T, Id>>,
    rs: Seq<Result<ConnectionId<Id>, TryRecvError>>,
)
    requires
        pools.len() == rs.len() + 1,
        rs.len() == pools[0].established_queue().len() + 1,
        forall|i: int| 0 <= i < rs.len() ==> eject_step(#[trigger] pools[i], pools[i + 1], rs[i]),
    ensures
        forall|i: int|
            0 <= i < rs.len() - 1 ==> #[trigger] rs[i] == Ok::<ConnectionId<Id>, TryRecvError>(
                pools[0].established_queue()[i],
            ),
        rs.last() == Err::<ConnectionId<Id>, TryRecvError>(TryRecvError::Empty),
{
    let q = pools[0].established_queue();
    lemma_ejects_drain_upto(pools, rs, rs.len() as int - 1);
    assert(eject_step(pools[rs.len() - 1], pools[rs.len() as int], rs[rs.len() - 1]));
}

proof fn lemma_ejects_drain_upto<T, Id: ConnectionIdValue>(
    pools: Seq<Pool<T, Id>>,
    rs: Seq<Result<ConnectionId<Id>, TryRecvError>>,
    n: int,
)
    requires
        pools.len() == rs.len() + 1,
        0 <= n <= pools[0].established_queue().len(),
        n <= rs.len(),
        forall|i: int| 0 <= i < rs.len() ==> eject_step(#[trigger] pools[i], pools[i + 1], rs[i]),
    ensures
        pools[n].established_queue() == pools[0].established_queue().subrange(n, pools[0].established_queue().len() as int),
        forall|i: int|
            0 <= i < n ==> #[trigger] rs[i] == Ok::<ConnectionId<Id>, TryRecvError>(pools[0].established_queue()[i]),
    decreases n,
{
    let q = pools[0].established_queue();
    if n == 0 {
        assert(q.subrange(0, q.len() as int) =~= q);
    } else {
        lemma_ejects_drain_upto(pools, rs, n - 1);
        assert(eject_step(pools[n - 1], pools[n], rs[n - 1]));
        assert(pools[n - 1].established_queue()[0] == q[n - 1]);
        assert(pools[n].established_queue() =~= q.subrange(n, q.len() as int));
    }
}

/// After a run of the polling loop that returned `ids`, on a pool whose
/// established event queue was empty and with `ids` fitting in that queue,
/// successive calls of `eject_connection` hand out `ids` in order, then
/// report the queue empty.
pub proof fn lemma_poll_then_ejects<T, Id: ConnectionIdValue>(
    pre: Pool<T, Id>,
    post: Pool<T, Id>,
    ids: Seq<ConnectionId<Id>>,
    pools: Seq<Pool<T, Id>>,
    rs: Seq<Result<ConnectionId<Id>, TryRecvError>>,
)
    requires
        poll_returned(pre, post, ids),
        pre.established_queue().len() == 0,
        ids.len() <= pre.capacity(),
        pools.len() == rs.len() + 1,
        pools[0] == post,
        rs.len() == ids.len() + 1,
        forall|i: int| 0 <= i < rs.len() ==> eject_step(#[trigger] pools[i], pools[i + 1], rs[i]),
    ensures
        forall|i: int| 0 <= i < ids.len() ==> #[trigger] rs[i] == Ok::<ConnectionId<Id>, TryRecvError>(ids[i]),
        rs.last() == Err::<ConnectionId<Id>, TryRecvError>(TryRecvError::Empty),
{
    lemma_poll_reports_new_ids(pre, post, ids);
    assert(post.established_queue() == ids);
    lemma_ejects_drain_queue(pools, rs);
}

} // verus!
