//! What holds of a simulation however it goes on. An operation on the event graph only
//! names events that were added before it, the events of a stream wait for each other in
//! order, and where times are replayed nothing has to be measured.

use crate::cuda_call::{CudaCall, CudaCallMsg, CudaStream, HostId, NcclComm};
use crate::cuda_estimate::CudaTimes;
use crate::event_queue::{point, Action, ComputeMeta, EventId, Flow, NodeId, OpView};
use crate::simulator::collectives::{
    completed, deps_added, first_joinable, flows_added, next_events, CollectiveName,
    CollectiveState, CollectivesView, NcclCollectiveSignature, Participant, WaitingView,
};
use crate::simulator::p2p::{
    enqueued, group_end_deps, group_setup, has_waiting, on_stream, p2p_call, p2p_calls, popped,
    scheduled, streams_of, P2PCallInfo, P2PCallKind, P2PFlowEndpoint, P2PKey, P2PName, P2PState,
    P2PView, Waiting,
};
use crate::simulator::streams::{
    after_last, compute_op, lemma_flush_replay, lemma_replay_unmeasured, split, timed_all,
    CoreView, Lane, StreamName, TimedCall,
};
use crate::simulator::task::{Answer, Next, Task};
use crate::simulator::{
    event_stream, flash_key, law_resume_leaves_streams, lemma_reached_forward, p2p_names, EventName,
    SimView,
};
use crate::torch_call::TorchCall;
use crate::torch_estimate::TorchTimes;
use vstd::prelude::*;

verus! {

/// Whether an event was added.
pub open spec fn added(q: Seq<OpView>, e: EventId) -> bool {
    e < q.len() && q[e as int] is Add
}

/// Whether an event was added that was held back by a dependency on `None`.
pub open spec fn held(q: Seq<OpView>, e: EventId) -> bool {
    added(q, e) && q[e as int]->depends_on.contains(None)
}

/// Whether what an event waits for was added.
pub open spec fn dep_fits(q: Seq<OpView>, d: Option<EventId>) -> bool {
    match d {
        Some(e) => added(q, e),
        None => true,
    }
}

/// Whether all that an event waits for was added.
pub open spec fn deps_fit(q: Seq<OpView>, deps: Seq<Option<EventId>>) -> bool {
    forall|i: int| 0 <= i < deps.len() ==> dep_fits(q, #[trigger] deps[i])
}

/// Whether the events that an operation names were added, and the one that it lets go was
/// held back.
pub open spec fn op_fits(q: Seq<OpView>, op: OpView) -> bool {
    match op {
        OpView::Add { depends_on, .. } => deps_fit(q, depends_on),
        OpView::AddDependency { event, on } => added(q, event) && dep_fits(q, on),
        OpView::RemoveNoneDependency { event } => held(q, event),
    }
}

/// Whether each operation only names events that were added before it.
pub open spec fn sound(q: Seq<OpView>) -> bool {
    forall|i: int| 0 <= i < q.len() ==> op_fits(q.take(i), #[trigger] q[i])
}

/// Whether the events of a stream were added one after the other, each waiting for the
/// one before it.
pub open spec fn chained(q: Seq<OpView>, events: Seq<EventId>) -> bool {
    &&& forall|i: int| 0 <= i < events.len() ==> added(q, #[trigger] events[i])
    &&& forall|i: int|
        0 < i < events.len() ==> events[i - 1] < #[trigger] events[i]
            && q[events[i] as int]->depends_on.contains(Some(events[i - 1]))
}

/// Whether the operations are sound and the events of every stream are chained.
pub open spec fn core_sound(c: CoreView) -> bool {
    &&& sound(c.queue)
    &&& c.queue.len() <= usize::MAX
    &&& forall|name: StreamName|
        c.streams.contains_key(name) ==> chained(c.queue, #[trigger] c.streams[name].events)
}

/// Whether some operations are followed by others.
pub open spec fn extends(q: Seq<OpView>, longer: Seq<OpView>) -> bool {
    &&& q.len() <= longer.len()
    &&& forall|i: int| 0 <= i < q.len() ==> longer[i] == #[trigger] q[i]
}

proof fn lemma_extends(a: Seq<OpView>, b: Seq<OpView>, c: Seq<OpView>)
    requires
        extends(a, b),
        extends(b, c),
    ensures
        extends(a, c),
{
    assert forall|i: int| 0 <= i < a.len() implies c[i] == #[trigger] a[i] by {
        assert(b[i] == a[i]);
        assert(c[i] == b[i]);
    }
}

proof fn lemma_deps_kept(q: Seq<OpView>, longer: Seq<OpView>, deps: Seq<Option<EventId>>)
    requires
        extends(q, longer),
        deps_fit(q, deps),
    ensures
        deps_fit(longer, deps),
{
    assert forall|i: int| 0 <= i < deps.len() implies dep_fits(longer, #[trigger] deps[i]) by {
        assert(dep_fits(q, deps[i]));
    }
}

proof fn lemma_chained_kept(q: Seq<OpView>, longer: Seq<OpView>, events: Seq<EventId>)
    requires
        extends(q, longer),
        chained(q, events),
    ensures
        chained(longer, events),
{
    assert forall|i: int| 0 <= i < events.len() implies added(longer, #[trigger] events[i]) by {
        assert(added(q, events[i]));
    }
    assert forall|i: int| 0 < i < events.len() implies events[i - 1] < #[trigger] events[i]
        && longer[events[i] as int]->depends_on.contains(Some(events[i - 1])) by {
        assert(added(q, events[i]));
        assert(longer[events[i] as int] == q[events[i] as int]);
    }
}

proof fn lemma_sound_push(q: Seq<OpView>, op: OpView)
    requires
        sound(q),
        op_fits(q, op),
    ensures
        sound(q.push(op)),
        extends(q, q.push(op)),
{
    let n = q.push(op);
    assert forall|i: int| 0 <= i < n.len() implies op_fits(n.take(i), #[trigger] n[i]) by {
        assert(n.take(i) =~= q.take(i));
        if i < q.len() {
            assert(op_fits(q.take(i), q[i]));
        } else {
            assert(q.take(i) =~= q);
        }
    }
}

/// One more operation that only names events that were added keeps the graph sound.
proof fn lemma_op_sound(c: CoreView, op: OpView)
    requires
        core_sound(c),
        op_fits(c.queue, op),
        c.queue.len() < usize::MAX,
    ensures
        core_sound(c.op(op)),
        extends(c.queue, c.op(op).queue),
{
    lemma_sound_push(c.queue, op);
    let n = c.op(op);
    assert forall|name: StreamName| n.streams.contains_key(name) implies chained(
        n.queue,
        #[trigger] n.streams[name].events,
    ) by {
        assert(chained(c.queue, c.streams[name].events));
        lemma_chained_kept(c.queue, n.queue, c.streams[name].events);
    }
}

/// One more event behind those of a stream is chained to them.
proof fn lemma_chain_push(q: Seq<OpView>, events: Seq<EventId>, op: OpView)
    requires
        chained(q, events),
        q.len() < usize::MAX,
        op is Add,
        events.len() > 0 ==> op->depends_on.contains(Some(events.last())),
    ensures
        chained(q.push(op), events.push(q.len() as EventId)),
{
    let n = q.push(op);
    lemma_chained_kept(q, n, events);
    let e = events.push(q.len() as EventId);
    assert forall|i: int| 0 <= i < e.len() implies added(n, #[trigger] e[i]) by {
        if i < events.len() {
            assert(added(n, events[i]));
        }
    }
    assert forall|i: int| 0 < i < e.len() implies e[i - 1] < #[trigger] e[i]
        && n[e[i] as int]->depends_on.contains(Some(e[i - 1])) by {
        if i < events.len() {
            assert(events[i - 1] < events[i]);
        } else {
            assert(added(q, events[i - 1]));
        }
    }
}

proof fn lemma_after_last(q: Seq<OpView>, events: Seq<EventId>)
    requires
        chained(q, events),
    ensures
        deps_fit(q, after_last(events)),
        events.len() > 0 ==> after_last(events).contains(Some(events.last())),
{
    if events.len() > 0 {
        assert(added(q, events[events.len() - 1]));
        assert(after_last(events)[0] == Some(events.last()));
    }
}

proof fn lemma_run_extends(lane: Lane, calls: Seq<TimedCall>)
    ensures
        extends(lane.queue, lane.run(calls).queue),
    decreases calls.len(),
{
    if calls.len() > 0 {
        lemma_run_extends(lane, calls.drop_last());
    }
}

proof fn lemma_run_sound(lane: Lane, calls: Seq<TimedCall>)
    requires
        sound(lane.queue),
        chained(lane.queue, lane.events),
        lane.run(calls).queue.len() <= usize::MAX,
    ensures
        sound(lane.run(calls).queue),
        chained(lane.run(calls).queue, lane.run(calls).events),
    decreases calls.len(),
{
    if calls.len() > 0 {
        let before = lane.run(calls.drop_last());
        lemma_run_sound(lane, calls.drop_last());
        let op = compute_op(before.events, calls.last().0, calls.last().1);
        lemma_after_last(before.queue, before.events);
        lemma_sound_push(before.queue, op);
        lemma_chain_push(before.queue, before.events, op);
    }
}

proof fn lemma_flush_extends(c: CoreView, name: StreamName)
    ensures
        c.flush(name).times.replay == c.times.replay,
        extends(c.queue, c.flush(name).queue),
{
    let seqs = split(c.stream(name).buffered, c.single);
    let lane = Lane { queue: c.queue, events: c.stream(name).events };
    lemma_run_extends(lane, timed_all(c.times, seqs, seqs.len() as int));
    lemma_flush_replay(c, name);
}

/// Turning buffered calls into events keeps the graph sound.
proof fn lemma_flush_sound(c: CoreView, name: StreamName)
    requires
        core_sound(c),
        c.flush(name).queue.len() <= usize::MAX,
    ensures
        core_sound(c.flush(name)),
{
    let seqs = split(c.stream(name).buffered, c.single);
    let lane = Lane { queue: c.queue, events: c.stream(name).events };
    let calls = timed_all(c.times, seqs, seqs.len() as int);
    assert(chained(c.queue, lane.events)) by {
        if c.streams.contains_key(name) {
            assert(chained(c.queue, c.streams[name].events));
        }
    }
    lemma_run_sound(lane, calls);
    lemma_flush_extends(c, name);
    let n = c.flush(name);
    assert forall|other: StreamName| n.streams.contains_key(other) implies chained(
        n.queue,
        #[trigger] n.streams[other].events,
    ) by {
        if other != name {
            assert(n.streams[other] == c.streams[other]);
            assert(chained(c.queue, c.streams[other].events));
            lemma_chained_kept(c.queue, n.queue, c.streams[other].events);
        }
    }
}

proof fn lemma_event_extends(
    c: CoreView,
    name: StreamName,
    deps: Seq<Option<EventId>>,
    action: Option<Action>,
    time: i64,
)
    ensures
        c.event(name, deps, action, time).times.replay == c.times.replay,
        extends(c.queue, c.event(name, deps, action, time).queue),
        extends(c.flush(name).queue, c.event(name, deps, action, time).queue),
        c.event(name, deps, action, time).queue.len() == c.flush(name).queue.len() + 1,
{
    lemma_flush_extends(c, name);
    lemma_extends(c.queue, c.flush(name).queue, c.event(name, deps, action, time).queue);
}

/// One more event on a stream that waits for events that were added keeps the graph
/// sound.
proof fn lemma_event_sound(
    c: CoreView,
    name: StreamName,
    deps: Seq<Option<EventId>>,
    action: Option<Action>,
    time: i64,
)
    requires
        core_sound(c),
        deps_fit(c.queue, deps),
        c.event(name, deps, action, time).queue.len() <= usize::MAX,
    ensures
        core_sound(c.event(name, deps, action, time)),
        extends(c.queue, c.event(name, deps, action, time).queue),
        added(c.event(name, deps, action, time).queue, c.event_id(name)),
{
    lemma_event_extends(c, name, deps, action, time);
    lemma_flush_extends(c, name);
    lemma_flush_sound(c, name);
    let clear = c.flush(name);
    let events = clear.streams[name].events;
    assert(clear.streams.contains_key(name));
    assert(chained(clear.queue, clear.streams[name].events));
    lemma_after_last(clear.queue, events);
    lemma_deps_kept(c.queue, clear.queue, deps);
    let all = deps + after_last(events);
    let op = OpView::Add { depends_on: all, action, time };
    assert forall|i: int| 0 <= i < all.len() implies dep_fits(clear.queue, #[trigger] all[i]) by {
        if i < deps.len() {
            assert(dep_fits(clear.queue, deps[i]));
        } else {
            assert(dep_fits(clear.queue, after_last(events)[i - deps.len()]));
        }
    }
    if events.len() > 0 {
        assert(all[deps.len() as int] == Some(events.last()));
    }
    lemma_op_sound(clear, op);
    lemma_chain_push(clear.queue, events, op);
    let n = c.event(name, deps, action, time);
    assert forall|other: StreamName| n.streams.contains_key(other) implies chained(
        n.queue,
        #[trigger] n.streams[other].events,
    ) by {
        if other != name {
            assert(n.streams[other] == clear.op(op).streams[other]);
            assert(chained(clear.op(op).queue, clear.op(op).streams[other].events));
        }
    }
}

/// Whether the events that gate one side of a transfer were added, and its start is held
/// back.
pub open spec fn endpoint_fits(q: Seq<OpView>, e: P2PFlowEndpoint) -> bool {
    added(q, e.flow_start) && added(q, e.flow_end) && held(q, e.unmatched_barrier)
}

/// Whether the events that gate the sides that wait were added.
pub open spec fn waiting_fits(q: Seq<OpView>, w: Waiting) -> bool {
    forall|k: P2PName, i: int|
        w.contains_key(k) && 0 <= i < w[k].len() ==> endpoint_fits(q, #[trigger] w[k][i])
}

/// Whether the events that gate the sends and receives that wait were added.
pub open spec fn p2p_fits(q: Seq<OpView>, p2p: P2PView) -> bool {
    waiting_fits(q, p2p.send) && waiting_fits(q, p2p.recv)
}

/// Whether the graph is sound, and what waits for peers only names events that were added.
pub open spec fn p2p_sound(s: P2PState) -> bool {
    core_sound(s.core) && p2p_fits(s.core.queue, s.p2p)
}

proof fn lemma_waiting_kept(q: Seq<OpView>, longer: Seq<OpView>, w: Waiting)
    requires
        extends(q, longer),
        waiting_fits(q, w),
    ensures
        waiting_fits(longer, w),
{
    assert forall|k: P2PName, i: int|
        w.contains_key(k) && 0 <= i < w[k].len() implies endpoint_fits(
        longer,
        #[trigger] w[k][i],
    ) by {
        assert(endpoint_fits(q, w[k][i]));
    }
}

proof fn lemma_p2p_kept(q: Seq<OpView>, longer: Seq<OpView>, p2p: P2PView)
    requires
        extends(q, longer),
        p2p_fits(q, p2p),
    ensures
        p2p_fits(longer, p2p),
{
    lemma_waiting_kept(q, longer, p2p.send);
    lemma_waiting_kept(q, longer, p2p.recv);
}

proof fn lemma_scheduled_sound(
    c: CoreView,
    send: P2PFlowEndpoint,
    recv: P2PFlowEndpoint,
    key: P2PKey,
)
    requires
        core_sound(c),
        endpoint_fits(c.queue, send),
        endpoint_fits(c.queue, recv),
        scheduled(c, send, recv, key).queue.len() <= usize::MAX,
    ensures
        core_sound(scheduled(c, send, recv, key)),
        extends(c.queue, scheduled(c, send, recv, key).queue),
{
    let n = scheduled(c, send, recv, key);
    assert(n.queue.len() == c.queue.len() + 5);
    let flow = c.next();
    let add = n.queue[c.queue.len() as int];
    let deps = seq![Some(send.flow_start), Some(recv.flow_start)];
    assert(deps_fit(c.queue, deps));
    lemma_op_sound(c, add);
    let c1 = c.op(add);
    assert(added(c1.queue, flow));
    let op2 = OpView::AddDependency { event: send.flow_end, on: Some(flow) };
    lemma_op_sound(c1, op2);
    let c2 = c1.op(op2);
    let op3 = OpView::AddDependency { event: recv.flow_end, on: Some(flow) };
    lemma_op_sound(c2, op3);
    let c3 = c2.op(op3);
    let op4 = OpView::RemoveNoneDependency { event: send.unmatched_barrier };
    lemma_op_sound(c3, op4);
    let c4 = c3.op(op4);
    let op5 = OpView::RemoveNoneDependency { event: recv.unmatched_barrier };
    lemma_op_sound(c4, op5);
    assert(n == c4.op(op5));
}

proof fn lemma_arrive_extends(
    s: P2PState,
    kind: P2PCallKind,
    key: P2PKey,
    endpoint: P2PFlowEndpoint,
)
    ensures
        s.arrive(kind, key, endpoint).core.times == s.core.times,
        extends(s.core.queue, s.arrive(kind, key, endpoint).core.queue),
{
}

/// The arrival of one side of a transfer keeps the graph sound.
proof fn lemma_arrive_sound(
    s: P2PState,
    kind: P2PCallKind,
    key: P2PKey,
    endpoint: P2PFlowEndpoint,
)
    requires
        p2p_sound(s),
        endpoint_fits(s.core.queue, endpoint),
        s.arrive(kind, key, endpoint).core.queue.len() <= usize::MAX,
    ensures
        p2p_sound(s.arrive(kind, key, endpoint)),
        extends(s.core.queue, s.arrive(kind, key, endpoint).core.queue),
{
    let others = s.p2p.other(kind);
    let n = s.arrive(kind, key, endpoint);
    let rest = popped(others, key@);
    assert(waiting_fits(s.core.queue, rest)) by {
        assert forall|k: P2PName, i: int|
            rest.contains_key(k) && 0 <= i < rest[k].len() implies endpoint_fits(
            s.core.queue,
            #[trigger] rest[k][i],
        ) by {
            if k == key@ {
                assert(endpoint_fits(s.core.queue, others[k][i + 1]));
            } else {
                assert(endpoint_fits(s.core.queue, others[k][i]));
            }
        }
    }
    if has_waiting(others, key@) {
        let peer = others[key@][0];
        assert(endpoint_fits(s.core.queue, peer));
        match kind {
            P2PCallKind::Send => lemma_scheduled_sound(s.core, endpoint, peer, key),
            P2PCallKind::Recv => lemma_scheduled_sound(s.core, peer, endpoint, key),
        }
        let p2p = s.p2p.with_other(kind, rest);
        assert(p2p_fits(s.core.queue, p2p));
        lemma_p2p_kept(s.core.queue, n.core.queue, p2p);
    } else {
        let mine = s.p2p.side(kind);
        let more = enqueued(mine, key@, endpoint);
        assert forall|k: P2PName, i: int|
            more.contains_key(k) && 0 <= i < more[k].len() implies endpoint_fits(
            s.core.queue,
            #[trigger] more[k][i],
        ) by {
            if k != key@ || mine.contains_key(k) && i < mine[k].len() {
                assert(endpoint_fits(s.core.queue, mine[k][i]));
            }
        }
        assert(waiting_fits(s.core.queue, more));
    }
}

proof fn lemma_ungrouped_sound(s: P2PState, host: HostId, time: i64, call: P2PCallInfo)
    requires
        p2p_sound(s),
        s.ungrouped(host, time, call).core.queue.len() <= usize::MAX,
    ensures
        p2p_sound(s.ungrouped(host, time, call)),
        extends(s.core.queue, s.ungrouped(host, time, call).core.queue),
{
    let name = (host@, call.stream);
    let barrier = s.core.next();
    let op = point(seq![None], time);
    let c1 = s.core.op(op);
    let start = c1.event_id(name);
    let c2 = c1.event(name, seq![Some(barrier)], None, time);
    let end = c2.event_id(name);
    let c3 = c2.event(name, seq![Some(start)], None, time);
    let e = P2PFlowEndpoint {
        host,
        stream: call.stream,
        curr_time: time,
        count: call.count,
        dtype: call.dtype,
        flow_start: start,
        flow_end: end,
        unmatched_barrier: barrier,
    };
    let t = P2PState { core: c3, ..s };
    lemma_event_extends(c1, name, seq![Some(barrier)], None, time);
    lemma_event_extends(c2, name, seq![Some(start)], None, time);
    lemma_arrive_extends(t, call.kind, call.key, e);
    lemma_op_sound(s.core, op);
    assert(seq![None::<EventId>][0] is None);
    assert(held(c1.queue, barrier));
    lemma_event_sound(c1, name, seq![Some(barrier)], None, time);
    lemma_event_sound(c2, name, seq![Some(start)], None, time);
    lemma_extends(s.core.queue, c1.queue, c2.queue);
    lemma_extends(s.core.queue, c2.queue, c3.queue);
    lemma_extends(c1.queue, c2.queue, c3.queue);
    lemma_p2p_kept(s.core.queue, c3.queue, s.p2p);
    assert(endpoint_fits(c3.queue, e));
    lemma_arrive_sound(t, call.kind, call.key, e);
    lemma_extends(s.core.queue, c3.queue, t.arrive(call.kind, call.key, e).core.queue);
}

proof fn lemma_ungrouped_replay(s: P2PState, host: HostId, time: i64, call: P2PCallInfo)
    ensures
        s.ungrouped(host, time, call).core.times.replay == s.core.times.replay,
{
    let name = (host@, call.stream);
    let barrier = s.core.next();
    let c1 = s.core.op(point(seq![None], time));
    let start = c1.event_id(name);
    let c2 = c1.event(name, seq![Some(barrier)], None, time);
    lemma_event_extends(c1, name, seq![Some(barrier)], None, time);
    lemma_event_extends(c2, name, seq![Some(start)], None, time);
}

proof fn lemma_setup_extends(
    c: CoreView,
    host: HostId,
    time: i64,
    start: EventId,
    calls: Seq<P2PCallInfo>,
)
    ensures
        group_setup(c, host, time, start, calls).core.times == c.times,
        extends(c.queue, group_setup(c, host, time, start, calls).core.queue),
        group_setup(c, host, time, start, calls).sides.len() == calls.len(),
    decreases calls.len(),
{
    if calls.len() > 0 {
        lemma_setup_extends(c, host, time, start, calls.drop_last());
    }
}

proof fn lemma_setup_sound(
    c: CoreView,
    host: HostId,
    time: i64,
    start: EventId,
    calls: Seq<P2PCallInfo>,
)
    requires
        core_sound(c),
        added(c.queue, start),
        group_setup(c, host, time, start, calls).core.queue.len() <= usize::MAX,
    ensures
        core_sound(group_setup(c, host, time, start, calls).core),
        forall|i: int|
            0 <= i < calls.len() ==> endpoint_fits(
                group_setup(c, host, time, start, calls).core.queue,
                #[trigger] group_setup(c, host, time, start, calls).sides[i],
            ),
    decreases calls.len(),
{
    lemma_setup_extends(c, host, time, start, calls);
    if calls.len() > 0 {
        lemma_setup_extends(c, host, time, start, calls.drop_last());
        let before = group_setup(c, host, time, start, calls.drop_last());
        let n = group_setup(c, host, time, start, calls);
        assert(n.core.queue.len() == before.core.queue.len() + 3);
        lemma_setup_sound(c, host, time, start, calls.drop_last());
        let barrier = before.core.next();
        let op1 = point(seq![None], time);
        lemma_op_sound(before.core, op1);
        let c1 = before.core.op(op1);
        assert(seq![None::<EventId>][0] is None);
        assert(held(c1.queue, barrier));
        let op2 = point(seq![Some(start), Some(barrier)], time);
        assert(added(before.core.queue, start));
        lemma_op_sound(c1, op2);
        let c2 = c1.op(op2);
        let flow_start = c1.next();
        assert(added(c2.queue, flow_start));
        let op3 = point(seq![Some(flow_start)], time);
        lemma_op_sound(c2, op3);
        let c3 = c2.op(op3);
        assert(n.core == c3);
        assert(added(c3.queue, c2.next()));
        assert(added(c3.queue, flow_start));
        assert(held(c3.queue, barrier));
        assert forall|i: int| 0 <= i < calls.len() implies endpoint_fits(
            n.core.queue,
            #[trigger] n.sides[i],
        ) by {
            if i < calls.len() - 1 {
                assert(n.sides[i] == before.sides[i]);
                assert(endpoint_fits(before.core.queue, before.sides[i]));
            }
        }
    }
}

proof fn lemma_arrive_all_extends(
    s: P2PState,
    calls: Seq<P2PCallInfo>,
    sides: Seq<P2PFlowEndpoint>,
    n: int,
)
    ensures
        s.arrive_all(calls, sides, n).core.times == s.core.times,
        extends(s.core.queue, s.arrive_all(calls, sides, n).core.queue),
    decreases n,
{
    if n > 0 {
        lemma_arrive_all_extends(s, calls, sides, n - 1);
        let before = s.arrive_all(calls, sides, n - 1);
        lemma_arrive_extends(before, calls[n - 1].kind, calls[n - 1].key, sides[n - 1]);
        lemma_extends(
            s.core.queue,
            before.core.queue,
            s.arrive_all(calls, sides, n).core.queue,
        );
    }
}

proof fn lemma_arrive_all_sound(
    s: P2PState,
    calls: Seq<P2PCallInfo>,
    sides: Seq<P2PFlowEndpoint>,
    n: int,
)
    requires
        p2p_sound(s),
        n <= sides.len(),
        forall|i: int| 0 <= i < sides.len() ==> endpoint_fits(s.core.queue, #[trigger] sides[i]),
        s.arrive_all(calls, sides, n).core.queue.len() <= usize::MAX,
    ensures
        p2p_sound(s.arrive_all(calls, sides, n)),
    decreases n,
{
    if n > 0 {
        let before = s.arrive_all(calls, sides, n - 1);
        lemma_arrive_extends(before, calls[n - 1].kind, calls[n - 1].key, sides[n - 1]);
        lemma_arrive_all_sound(s, calls, sides, n - 1);
        lemma_arrive_all_extends(s, calls, sides, n - 1);
        assert(endpoint_fits(s.core.queue, sides[n - 1]));
        assert(endpoint_fits(before.core.queue, sides[n - 1]));
        lemma_arrive_sound(before, calls[n - 1].kind, calls[n - 1].key, sides[n - 1]);
    }
}

proof fn lemma_group_extends(
    s: P2PState,
    host: HostId,
    time: i64,
    stream: CudaStream,
    calls: Seq<P2PCallInfo>,
)
    ensures
        s.group(host, time, stream, calls).core.times.replay == s.core.times.replay,
        extends(s.core.queue, s.group(host, time, stream, calls).core.queue),
{
    let name = (host@, stream);
    let barrier = s.core.next();
    let c1 = s.core.op(point(seq![None], time));
    let start = c1.event_id(name);
    let c2 = c1.event(name, seq![Some(barrier)], None, time);
    let setup = group_setup(c2, host, time, start, calls);
    let deps = group_end_deps(start, setup.sides);
    let c3 = setup.core.event(name, deps, None, time);
    let t = P2PState { core: c3, ..s };
    let m = t.arrive_all(calls, setup.sides, calls.len() as int);
    lemma_event_extends(c1, name, seq![Some(barrier)], None, time);
    lemma_setup_extends(c2, host, time, start, calls);
    lemma_event_extends(setup.core, name, deps, None, time);
    lemma_arrive_all_extends(t, calls, setup.sides, calls.len() as int);
    lemma_extends(s.core.queue, c1.queue, c2.queue);
    lemma_extends(s.core.queue, c2.queue, setup.core.queue);
    lemma_extends(s.core.queue, setup.core.queue, c3.queue);
    lemma_extends(s.core.queue, c3.queue, m.core.queue);
    lemma_extends(s.core.queue, m.core.queue, s.group(host, time, stream, calls).core.queue);
}

/// A group of sends and receives on one stream keeps the graph sound.
proof fn lemma_group_sound(
    s: P2PState,
    host: HostId,
    time: i64,
    stream: CudaStream,
    calls: Seq<P2PCallInfo>,
)
    requires
        p2p_sound(s),
        s.group(host, time, stream, calls).core.queue.len() <= usize::MAX,
    ensures
        p2p_sound(s.group(host, time, stream, calls)),
{
    let name = (host@, stream);
    let barrier = s.core.next();
    let op = point(seq![None], time);
    let c1 = s.core.op(op);
    let start = c1.event_id(name);
    let c2 = c1.event(name, seq![Some(barrier)], None, time);
    let setup = group_setup(c2, host, time, start, calls);
    let deps = group_end_deps(start, setup.sides);
    let c3 = setup.core.event(name, deps, None, time);
    let t = P2PState { core: c3, ..s };
    let m = t.arrive_all(calls, setup.sides, calls.len() as int);
    let last = OpView::RemoveNoneDependency { event: barrier };
    assert(s.group(host, time, stream, calls).core == m.core.op(last));
    lemma_event_extends(c1, name, seq![Some(barrier)], None, time);
    lemma_setup_extends(c2, host, time, start, calls);
    lemma_event_extends(setup.core, name, deps, None, time);
    lemma_arrive_all_extends(t, calls, setup.sides, calls.len() as int);
    lemma_op_sound(s.core, op);
    assert(seq![None::<EventId>][0] is None);
    assert(held(c1.queue, barrier));
    lemma_event_sound(c1, name, seq![Some(barrier)], None, time);
    lemma_setup_sound(c2, host, time, start, calls);
    assert forall|i: int| 0 <= i < deps.len() implies dep_fits(
        setup.core.queue,
        #[trigger] deps[i],
    ) by {
        if i > 0 {
            assert(deps[i] == Some(setup.sides[i - 1].flow_end));
            assert(endpoint_fits(setup.core.queue, setup.sides[i - 1]));
        } else {
            assert(deps[0] == Some(start));
            assert(added(c2.queue, start));
        }
    }
    lemma_event_sound(setup.core, name, deps, None, time);
    lemma_extends(c1.queue, c2.queue, setup.core.queue);
    lemma_extends(c1.queue, setup.core.queue, c3.queue);
    lemma_extends(c1.queue, c3.queue, m.core.queue);
    lemma_extends(s.core.queue, c1.queue, c3.queue);
    lemma_p2p_kept(s.core.queue, c3.queue, s.p2p);
    assert forall|i: int| 0 <= i < setup.sides.len() implies endpoint_fits(
        c3.queue,
        #[trigger] setup.sides[i],
    ) by {
        assert(endpoint_fits(setup.core.queue, setup.sides[i]));
    }
    lemma_arrive_all_sound(t, calls, setup.sides, calls.len() as int);
    assert(held(m.core.queue, barrier));
    lemma_op_sound(m.core, last);
    lemma_p2p_kept(m.core.queue, m.core.op(last).queue, m.p2p);
}

proof fn lemma_groups_extends(
    s: P2PState,
    host: HostId,
    time: i64,
    streams: Seq<CudaStream>,
    calls: Seq<P2PCallInfo>,
)
    ensures
        s.groups(host, time, streams, calls).core.times.replay == s.core.times.replay,
        extends(s.core.queue, s.groups(host, time, streams, calls).core.queue),
    decreases streams.len(),
{
    if streams.len() > 0 {
        let before = s.groups(host, time, streams.drop_last(), calls);
        lemma_groups_extends(s, host, time, streams.drop_last(), calls);
        lemma_group_extends(before, host, time, streams.last(), on_stream(calls, streams.last()));
        lemma_extends(
            s.core.queue,
            before.core.queue,
            s.groups(host, time, streams, calls).core.queue,
        );
    }
}

proof fn lemma_groups_sound(
    s: P2PState,
    host: HostId,
    time: i64,
    streams: Seq<CudaStream>,
    calls: Seq<P2PCallInfo>,
)
    requires
        p2p_sound(s),
        s.groups(host, time, streams, calls).core.queue.len() <= usize::MAX,
    ensures
        p2p_sound(s.groups(host, time, streams, calls)),
    decreases streams.len(),
{
    if streams.len() > 0 {
        let before = s.groups(host, time, streams.drop_last(), calls);
        let mine = on_stream(calls, streams.last());
        lemma_group_extends(before, host, time, streams.last(), mine);
        lemma_groups_sound(s, host, time, streams.drop_last(), calls);
        lemma_group_sound(before, host, time, streams.last(), mine);
    }
}

/// Whether the events of a collective that waits were added, and it is held back.
pub open spec fn collective_fits(q: Seq<OpView>, w: WaitingView) -> bool {
    added(q, w.start) && added(q, w.end) && held(q, w.barrier)
}

/// Whether the events of the collectives that wait were added.
pub open spec fn collectives_fit(q: Seq<OpView>, c: CollectivesView) -> bool {
    forall|name: CollectiveName, i: int|
        c.waiting.contains_key(name) && 0 <= i < c.waiting[name].len() ==> collective_fits(
            q,
            #[trigger] c.waiting[name][i],
        )
}

/// Whether the graph is sound, and the collectives that wait only name events that were
/// added.
pub open spec fn collectives_sound(s: CollectiveState) -> bool {
    core_sound(s.core) && collectives_fit(s.core.queue, s.collectives)
}

proof fn lemma_collectives_kept(q: Seq<OpView>, longer: Seq<OpView>, c: CollectivesView)
    requires
        extends(q, longer),
        collectives_fit(q, c),
    ensures
        collectives_fit(longer, c),
{
    assert forall|name: CollectiveName, i: int|
        c.waiting.contains_key(name) && 0 <= i < c.waiting[name].len() implies collective_fits(
        longer,
        #[trigger] c.waiting[name][i],
    ) by {
        assert(collective_fits(q, c.waiting[name][i]));
    }
}

proof fn lemma_flows(c: CoreView, start: EventId, trace: Seq<Flow>, call: CudaCall, time: i64)
    ensures
        flows_added(c, start, trace, call, time).times == c.times,
        extends(c.queue, flows_added(c, start, trace, call, time).queue),
        flows_added(c, start, trace, call, time).queue.len() == c.queue.len() + trace.len(),
        forall|i: int|
            c.queue.len() <= i < c.queue.len() + trace.len() ==> (#[trigger] flows_added(
                c,
                start,
                trace,
                call,
                time,
            ).queue[i]) is Add,
    decreases trace.len(),
{
    if trace.len() > 0 {
        lemma_flows(c, start, trace.drop_last(), call, time);
        let before = flows_added(c, start, trace.drop_last(), call, time);
        let n = flows_added(c, start, trace, call, time);
        assert forall|i: int| c.queue.len() <= i < c.queue.len() + trace.len() implies (
        #[trigger] n.queue[i]) is Add by {
            if i < before.queue.len() {
                assert(before.queue[i] is Add);
            }
        }
    }
}

proof fn lemma_flows_sound(
    c: CoreView,
    start: EventId,
    trace: Seq<Flow>,
    call: CudaCall,
    time: i64,
)
    requires
        core_sound(c),
        added(c.queue, start),
        c.queue.len() + trace.len() <= usize::MAX,
    ensures
        core_sound(flows_added(c, start, trace, call, time)),
    decreases trace.len(),
{
    if trace.len() > 0 {
        lemma_flows_sound(c, start, trace.drop_last(), call, time);
        lemma_flows(c, start, trace.drop_last(), call, time);
        let before = flows_added(c, start, trace.drop_last(), call, time);
        let n = flows_added(c, start, trace, call, time);
        let deps = seq![Some(start)];
        assert(added(before.queue, start));
        assert(deps_fit(before.queue, deps));
        lemma_op_sound(before, n.queue.last());
        assert(n =~= before.op(n.queue.last()));
    }
}

proof fn lemma_deps_extends(c: CoreView, event: EventId, on: Seq<EventId>)
    ensures
        deps_added(c, event, on).times == c.times,
        extends(c.queue, deps_added(c, event, on).queue),
        deps_added(c, event, on).queue.len() == c.queue.len() + on.len(),
    decreases on.len(),
{
    if on.len() > 0 {
        lemma_deps_extends(c, event, on.drop_last());
    }
}

proof fn lemma_deps_sound(c: CoreView, event: EventId, on: Seq<EventId>)
    requires
        core_sound(c),
        added(c.queue, event),
        forall|i: int| 0 <= i < on.len() ==> added(c.queue, #[trigger] on[i]),
        c.queue.len() + on.len() <= usize::MAX,
    ensures
        core_sound(deps_added(c, event, on)),
    decreases on.len(),
{
    if on.len() > 0 {
        lemma_deps_sound(c, event, on.drop_last());
        lemma_deps_extends(c, event, on.drop_last());
        let before = deps_added(c, event, on.drop_last());
        assert(added(c.queue, on[on.len() - 1]));
        assert(added(before.queue, on.last()));
        assert(added(before.queue, event));
        lemma_op_sound(before, OpView::AddDependency { event, on: Some(on.last()) });
    }
}

proof fn lemma_completed_extends(c: CoreView, w: WaitingView, call: CudaCall, time: i64)
    ensures
        completed(c, w, call, time).times == c.times,
        extends(c.queue, completed(c, w, call, time).queue),
        completed(c, w, call, time).queue.len() == c.queue.len() + 2 * w.trace.len() + 1,
{
    let flows = flows_added(c, w.start, w.trace, call, time);
    let on = next_events(c, w.trace.len());
    lemma_flows(c, w.start, w.trace, call, time);
    lemma_deps_extends(flows, w.end, on);
    let tied = deps_added(flows, w.end, on);
    lemma_extends(c.queue, flows.queue, tied.queue);
    lemma_extends(c.queue, tied.queue, completed(c, w, call, time).queue);
}

proof fn lemma_completed_sound(c: CoreView, w: WaitingView, call: CudaCall, time: i64)
    requires
        core_sound(c),
        collective_fits(c.queue, w),
        completed(c, w, call, time).queue.len() <= usize::MAX,
    ensures
        core_sound(completed(c, w, call, time)),
{
    let flows = flows_added(c, w.start, w.trace, call, time);
    let on = next_events(c, w.trace.len());
    lemma_completed_extends(c, w, call, time);
    lemma_flows(c, w.start, w.trace, call, time);
    lemma_flows_sound(c, w.start, w.trace, call, time);
    assert forall|i: int| 0 <= i < on.len() implies added(flows.queue, #[trigger] on[i]) by {
        assert(on[i] == c.queue.len() + i);
        assert(flows.queue[c.queue.len() + i] is Add);
    }
    assert(added(flows.queue, w.end));
    lemma_deps_sound(flows, w.end, on);
    lemma_deps_extends(flows, w.end, on);
    let tied = deps_added(flows, w.end, on);
    assert(held(tied.queue, w.barrier));
    lemma_op_sound(tied, OpView::RemoveNoneDependency { event: w.barrier });
}

proof fn lemma_begin_sound(s: CollectiveState, p: Participant, nranks: i32, trace: Seq<Flow>)
    requires
        collectives_sound(s),
        s.begin(p, nranks, trace).core.queue.len() <= usize::MAX,
    ensures
        collectives_sound(s.begin(p, nranks, trace)),
        extends(s.core.queue, s.begin(p, nranks, trace).core.queue),
{
    let t = p.curr_time;
    let name = p.name();
    let barrier = s.core.next();
    let op1 = point(seq![None], t);
    let c1 = s.core.op(op1);
    let reached = c1.event_id(name);
    let c2 = c1.event(name, seq![Some(barrier)], None, t);
    let start = c2.next();
    let op3 = point(seq![Some(reached)], t);
    let c3 = c2.op(op3);
    let end = c3.next();
    let op4 = point(seq![Some(start)], t);
    let c4 = c3.op(op4);
    let c5 = c4.event(name, seq![Some(end)], None, t);
    lemma_event_extends(c1, name, seq![Some(barrier)], None, t);
    lemma_event_extends(c4, name, seq![Some(end)], None, t);
    lemma_op_sound(s.core, op1);
    assert(seq![None::<EventId>][0] is None);
    assert(held(c1.queue, barrier));
    lemma_event_sound(c1, name, seq![Some(barrier)], None, t);
    lemma_op_sound(c2, op3);
    assert(added(c3.queue, start));
    lemma_op_sound(c3, op4);
    assert(added(c4.queue, end));
    lemma_event_sound(c4, name, seq![Some(end)], None, t);
    lemma_extends(c1.queue, c2.queue, c3.queue);
    lemma_extends(c1.queue, c3.queue, c4.queue);
    lemma_extends(c1.queue, c4.queue, c5.queue);
    lemma_extends(s.core.queue, c1.queue, c5.queue);
    lemma_extends(c3.queue, c4.queue, c5.queue);
    lemma_collectives_kept(s.core.queue, c5.queue, s.collectives);
    let n = s.begin(p, nranks, trace);
    let queue = s.collectives.queue(p.key());
    assert(n.core == c5);
    assert forall|k: CollectiveName, i: int|
        n.collectives.waiting.contains_key(k) && 0 <= i < n.collectives.waiting[k].len() implies collective_fits(
        c5.queue,
        #[trigger] n.collectives.waiting[k][i],
    ) by {
        if k != p.key() {
            assert(n.collectives.waiting[k] == s.collectives.waiting[k]);
            assert(collective_fits(c5.queue, s.collectives.waiting[k][i]));
        } else if i < queue.len() {
            assert(s.collectives.waiting.contains_key(k));
            assert(collective_fits(c5.queue, s.collectives.waiting[k][i]));
        } else {
            assert(held(c5.queue, barrier));
            assert(added(c5.queue, start));
            assert(added(c5.queue, end));
        }
    }
}

proof fn lemma_join_sound(s: CollectiveState, p: Participant, i: int)
    requires
        collectives_sound(s),
        0 <= i < s.collectives.queue(p.key()).len(),
        s.join(p, i).core.queue.len() <= usize::MAX,
    ensures
        collectives_sound(s.join(p, i)),
        extends(s.core.queue, s.join(p, i).core.queue),
{
    let t = p.curr_time;
    let name = p.name();
    let queue = s.collectives.queue(p.key());
    let w = queue[i].with_rank(p.comm.rank);
    assert(s.collectives.waiting.contains_key(p.key()));
    assert(collective_fits(s.core.queue, s.collectives.waiting[p.key()][i]));
    let reached = s.core.event_id(name);
    let c1 = s.core.event(name, seq![Some(w.barrier)], None, t);
    let op = OpView::AddDependency { event: w.start, on: Some(reached) };
    let c2 = c1.op(op);
    let c3 = c2.event(name, seq![Some(w.end)], None, t);
    let call = p.signature.call_of(p.comm, p.stream);
    let n = s.join(p, i);
    lemma_event_extends(s.core, name, seq![Some(w.barrier)], None, t);
    lemma_event_extends(c2, name, seq![Some(w.end)], None, t);
    lemma_completed_extends(c3, w, call, t);
    lemma_event_sound(s.core, name, seq![Some(w.barrier)], None, t);
    assert(added(c1.queue, w.start));
    lemma_op_sound(c1, op);
    assert(added(c2.queue, w.end));
    lemma_event_sound(c2, name, seq![Some(w.end)], None, t);
    lemma_extends(s.core.queue, c1.queue, c2.queue);
    lemma_extends(s.core.queue, c2.queue, c3.queue);
    assert(collective_fits(c3.queue, w));
    if w.waiting_for =~= Set::empty() {
        lemma_completed_sound(c3, w, call, t);
        lemma_extends(s.core.queue, c3.queue, n.core.queue);
    }
    lemma_collectives_kept(s.core.queue, n.core.queue, s.collectives);
    assert forall|k: CollectiveName, j: int|
        n.collectives.waiting.contains_key(k) && 0 <= j < n.collectives.waiting[k].len() implies collective_fits(
        n.core.queue,
        #[trigger] n.collectives.waiting[k][j],
    ) by {
        if k != p.key() {
            assert(n.collectives.waiting[k] == s.collectives.waiting[k]);
            assert(collective_fits(n.core.queue, s.collectives.waiting[k][j]));
        } else if w.waiting_for =~= Set::empty() {
            let from = if j < i {
                j
            } else {
                j + 1
            };
            assert(collective_fits(n.core.queue, s.collectives.waiting[k][from]));
        } else if j == i {
            assert(collective_fits(n.core.queue, w));
        } else {
            assert(collective_fits(n.core.queue, s.collectives.waiting[k][j]));
        }
    }
}

proof fn lemma_first_joinable(
    queue: Seq<WaitingView>,
    rank: i32,
    signature: NcclCollectiveSignature,
    i: int,
)
    requires
        0 <= i,
    ensures
        match first_joinable(queue, rank, signature, i) {
            Some(j) => i <= j < queue.len(),
            None => true,
        },
    decreases queue.len() - i,
{
    if i < queue.len() {
        lemma_first_joinable(queue, rank, signature, i + 1);
    }
}

/// A rank that takes part in a collective keeps the graph sound.
proof fn lemma_take_part_sound(s: CollectiveState, p: Participant, nranks: i32, trace: Seq<Flow>)
    requires
        collectives_sound(s),
        s.take_part(p, nranks, trace).core.queue.len() <= usize::MAX,
    ensures
        collectives_sound(s.take_part(p, nranks, trace)),
        extends(s.core.queue, s.take_part(p, nranks, trace).core.queue),
{
    let queue = s.collectives.queue(p.key());
    lemma_first_joinable(queue, p.comm.rank, p.signature, 0);
    match first_joinable(queue, p.comm.rank, p.signature, 0) {
        Some(i) => lemma_join_sound(s, p, i),
        None => lemma_begin_sound(s, p, nranks, trace),
    }
}

proof fn lemma_flush_all_extends(c: CoreView, names: Seq<StreamName>)
    ensures
        c.flush_all(names).times.replay == c.times.replay,
        extends(c.queue, c.flush_all(names).queue),
    decreases names.len(),
{
    if names.len() > 0 {
        let before = c.flush_all(names.drop_last());
        lemma_flush_all_extends(c, names.drop_last());
        lemma_flush_extends(before, names.last());
        lemma_extends(c.queue, before.queue, c.flush_all(names).queue);
    }
}

/// Turning the buffered calls of some streams into events keeps the graph sound, and the
/// last events of the streams are among them.
proof fn lemma_flush_all_sound(c: CoreView, names: Seq<StreamName>)
    requires
        core_sound(c),
        c.flush_all(names).queue.len() <= usize::MAX,
    ensures
        core_sound(c.flush_all(names)),
        deps_fit(c.flush_all(names).queue, c.last_events(names)),
    decreases names.len(),
{
    if names.len() > 0 {
        let before = c.flush_all(names.drop_last());
        let n = c.flush_all(names);
        lemma_flush_extends(before, names.last());
        lemma_flush_all_sound(c, names.drop_last());
        lemma_flush_sound(before, names.last());
        lemma_deps_kept(before.queue, n.queue, c.last_events(names.drop_last()));
        let events = n.stream(names.last()).events;
        assert(n.streams.contains_key(names.last()));
        assert(chained(n.queue, n.streams[names.last()].events));
        lemma_after_last(n.queue, events);
        let first = c.last_events(names.drop_last());
        let all = c.last_events(names);
        assert forall|i: int| 0 <= i < all.len() implies dep_fits(n.queue, #[trigger] all[i]) by {
            if i < first.len() {
                assert(dep_fits(n.queue, first[i]));
            } else {
                assert(dep_fits(n.queue, after_last(events)[i - first.len()]));
            }
        }
    }
}

/// Whether an event that is asked for or waited for was added.
pub open spec fn task_fits(q: Seq<OpView>, task: Task) -> bool {
    match task {
        Task::Idle => true,
        Task::Peek { next, .. } => next_fits(q, next),
        Task::Advance { next, .. } => next_fits(q, next),
        Task::Ask { event, .. } => added(q, event),
        Task::RunTo { event } => added(q, event),
    }
}

/// Whether an event that is asked for next was added.
pub open spec fn next_fits(q: Seq<OpView>, next: Next) -> bool {
    match next {
        Next::EventSync { event, .. } => added(q, event),
        Next::EventQuery { event, .. } => added(q, event),
        Next::StreamQuery { last_event, .. } => dep_fits(q, last_event),
        _ => true,
    }
}

/// Whether the event graph of a simulation is sound: an operation only names events that
/// were added before it, the events of each stream wait for each other in order, and
/// whatever else names an event names one that was added.
pub open spec fn graph_sound(s: SimView) -> bool {
    let q = s.core.queue;
    &&& core_sound(s.core)
    &&& p2p_fits(q, s.p2p)
    &&& collectives_fit(q, s.collectives)
    &&& forall|k: EventName| #[trigger] s.events.contains_key(k) ==> added(q, s.events[k])
    &&& forall|e: EventId| #[trigger] s.clock.syncing.contains_key(e) ==> added(q, e)
    &&& task_fits(q, s.task)
}

/// The event graph of a simulation in which nothing has happened is sound.
pub proof fn law_graph_sound_at_first(cuda: CudaTimes, times: TorchTimes, single: bool)
    ensures
        graph_sound(SimView::initial(cuda, times, single)),
{
}

proof fn lemma_names_kept(s: SimView, core: CoreView)
    requires
        graph_sound(s),
        core_sound(core),
        extends(s.core.queue, core.queue),
    ensures
        graph_sound(SimView { core, ..s }),
{
    lemma_p2p_kept(s.core.queue, core.queue, s.p2p);
    lemma_collectives_kept(s.core.queue, core.queue, s.collectives);
}

/// The collective that a call takes part in, its communicator and its stream.
spec fn collective_of(call: CudaCall) -> (NcclCollectiveSignature, NcclComm, CudaStream) {
    match call {
        CudaCall::NcclBcast { count, dtype, root, comm, stream } => (
            NcclCollectiveSignature::Bcast { count, dtype, root },
            comm,
            stream,
        ),
        CudaCall::NcclAllReduce { count, dtype, op, comm, stream } => (
            NcclCollectiveSignature::AllReduce { count, dtype, op },
            comm,
            stream,
        ),
        CudaCall::NcclAllGather { count, dtype, comm, stream } => (
            NcclCollectiveSignature::AllGather { count, dtype },
            comm,
            stream,
        ),
        CudaCall::NcclReduceScatter { count, dtype, op, comm, stream } => (
            NcclCollectiveSignature::ReduceScatter { count, dtype, op },
            comm,
            stream,
        ),
        _ => arbitrary(),
    }
}

/// The stream that a call adds an event to, what the event waits for, and what it does.
spec fn stream_event(s: SimView, msg: CudaCallMsg) -> (
    StreamName,
    Seq<Option<EventId>>,
    Option<Action>,
) {
    let host = msg.id.host;
    match msg.call {
        CudaCall::CudaMemcpyAsync { size, kind, stream } => (
            (host@, stream),
            seq![],
            Some(
                Action::Computation(
                    NodeId(host),
                    s.cuda.memcpy_answer(kind, size)->0.micros(),
                    ComputeMeta::Cuda(msg.call),
                ),
            ),
        ),
        CudaCall::CudaStreamSynchronize(stream) => ((host@, stream), seq![], None),
        CudaCall::CudaStreamWaitEvent { stream, event } => (
            (host@, stream),
            seq![Some(s.events[(host@, event)])],
            None,
        ),
        CudaCall::CudaEventRecord(event) => ((host@, event_stream(event)), seq![], None),
        CudaCall::CudaAddLatency(stream, latency) => (
            (host@, stream),
            seq![],
            Some(Action::Computation(NodeId(host), latency, ComputeMeta::Cuda(msg.call))),
        ),
        CudaCall::FlashAttnCall { stream, .. } => (
            (host@, stream),
            seq![],
            Some(
                Action::Computation(
                    NodeId(host),
                    s.cuda.flash_answer(flash_key(msg.call))->0.micros(),
                    ComputeMeta::Cuda(msg.call),
                ),
            ),
        ),
        _ => arbitrary(),
    }
}

proof fn lemma_collective_kept(s: SimView, msg: CudaCallMsg, trace: Seq<Flow>)
    requires
        graph_sound(s),
        s.task is Idle,
        msg.call is NcclBcast || msg.call is NcclAllReduce || msg.call is NcclAllGather
            || msg.call is NcclReduceScatter,
        s.handle(msg, trace).core.queue.len() <= usize::MAX,
    ensures
        graph_sound(s.handle(msg, trace)),
        extends(s.core.queue, s.handle(msg, trace).core.queue),
{
    let host = msg.id.host;
    let t = msg.curr_time;
    let seen = s.seen(host@, t);
    let state = CollectiveState { core: s.core, collectives: s.collectives };
    let (signature, comm, stream) = collective_of(msg.call);
    let p = Participant { host, stream, comm, curr_time: t, signature };
    let nranks = s.comms.groups[comm.id@].len() as i32;
    let n = s.handle(msg, trace);
    assert(n == seen.collective(host, t, signature, comm, stream, trace));
    assert(n.core == state.take_part(p, nranks, trace).core);
    lemma_take_part_sound(state, p, nranks, trace);
    lemma_names_kept(seen, n.core);
}

proof fn lemma_transfer_kept(s: SimView, msg: CudaCallMsg, trace: Seq<Flow>)
    requires
        graph_sound(s),
        s.task is Idle,
        msg.call is NcclSend || msg.call is NcclRecv || msg.call is NcclP2pGroup,
        s.handle(msg, trace).core.queue.len() <= usize::MAX,
    ensures
        graph_sound(s.handle(msg, trace)),
        extends(s.core.queue, s.handle(msg, trace).core.queue),
{
    let host = msg.id.host;
    let t = msg.curr_time;
    let seen = s.seen(host@, t);
    let state = P2PState { core: s.core, p2p: s.p2p };
    let n = s.handle(msg, trace);
    match msg.call {
        CudaCall::NcclP2pGroup { calls } => {
            let p2p = p2p_calls(calls@);
            lemma_groups_extends(state, host, t, streams_of(p2p), p2p);
            lemma_groups_sound(state, host, t, streams_of(p2p), p2p);
        },
        call => {
            let info = p2p_call(call)->0;
            assert(n.core == state.ungrouped(host, t, info).core);
            lemma_ungrouped_sound(state, host, t, info);
        },
    }
    lemma_names_kept(seen, n.core);
}

proof fn lemma_stream_call_kept(s: SimView, msg: CudaCallMsg, trace: Seq<Flow>)
    requires
        graph_sound(s),
        s.need(msg) is Ready,
        s.task is Idle,
        msg.call is CudaMemcpyAsync || msg.call is CudaStreamSynchronize
            || msg.call is CudaStreamWaitEvent || msg.call is CudaEventRecord
            || msg.call is CudaAddLatency || msg.call is FlashAttnCall,
        s.handle(msg, trace).core.queue.len() <= usize::MAX,
    ensures
        graph_sound(s.handle(msg, trace)),
        extends(s.core.queue, s.handle(msg, trace).core.queue),
{
    let host = msg.id.host;
    let t = msg.curr_time;
    let seen = s.seen(host@, t);
    let n = s.handle(msg, trace);
    let (name, deps, action) = stream_event(s, msg);
    assert(n.core == s.core.event(name, deps, action, t));
    if let CudaCall::CudaStreamWaitEvent { stream, event } = msg.call {
        assert(s.events.contains_key((host@, event)));
        assert(added(s.core.queue, s.events[(host@, event)]));
    }
    lemma_event_sound(s.core, name, deps, action, t);
    lemma_names_kept(seen, n.core);
}

/// Whatever is reported, the event graph stays sound, and the operations issued before
/// are followed by new ones, never changed. The number of operations has to stay a
/// machine number.
pub proof fn law_graph_stays_sound(s: SimView, msg: CudaCallMsg, trace: Seq<Flow>)
    requires
        graph_sound(s),
        s.need(msg) is Ready,
        s.task is Idle,
        s.handle(msg, trace).core.queue.len() <= usize::MAX,
    ensures
        graph_sound(s.handle(msg, trace)),
        extends(s.core.queue, s.handle(msg, trace).core.queue),
{
    let who = msg.id;
    let host = who.host;
    let t = msg.curr_time;
    let seen = s.seen(host@, t);
    let n = s.handle(msg, trace);
    assert(graph_sound(seen));
    match msg.call {
        CudaCall::CudaDeviceSynchronize(device) => {
            let names = s.core.device_streams(host@, device);
            let clear = s.core.flush_all(names);
            let op = point(s.core.last_events(names), t);
            lemma_flush_all_extends(s.core, names);
            lemma_flush_all_sound(s.core, names);
            lemma_op_sound(clear, op);
            lemma_extends(s.core.queue, clear.queue, n.core.queue);
            lemma_names_kept(seen, n.core);
            assert(added(n.core.queue, clear.next()));
        },
        CudaCall::CudaStreamQuery(stream) => {
            let name = (host@, stream);
            if s.core.streams.contains_key(name) {
                lemma_flush_extends(s.core, name);
                lemma_flush_sound(s.core, name);
            }
            lemma_names_kept(seen, n.core);
            if n.core.streams.contains_key(name) {
                let events = n.core.streams[name].events;
                assert(chained(n.core.queue, n.core.streams[name].events));
                lemma_after_last(n.core.queue, events);
                if events.len() > 0 {
                    assert(added(n.core.queue, events[events.len() - 1]));
                }
            }
        },
        CudaCall::NcclBcast { .. }
        | CudaCall::NcclAllReduce { .. }
        | CudaCall::NcclAllGather { .. }
        | CudaCall::NcclReduceScatter { .. } => {
            lemma_collective_kept(s, msg, trace);
        },
        CudaCall::NcclSend { .. } | CudaCall::NcclRecv { .. } | CudaCall::NcclP2pGroup { .. } => {
            lemma_transfer_kept(s, msg, trace);
        },
        CudaCall::CudaMemcpyAsync { .. }
        | CudaCall::CudaStreamSynchronize(_)
        | CudaCall::CudaStreamWaitEvent { .. }
        | CudaCall::CudaEventRecord(_)
        | CudaCall::CudaAddLatency(_, _)
        | CudaCall::FlashAttnCall { .. } => {
            lemma_stream_call_kept(s, msg, trace);
        },
        _ => {},
    }
}

/// A traced operator keeps the event graph sound: nothing is issued for it yet.
pub proof fn law_graph_sound_after_operator(s: SimView, call: TorchCall)
    requires
        graph_sound(s),
    ensures
        graph_sound(s.handle_torch(call)),
        s.handle_torch(call).core.queue == s.core.queue,
{
    let n = s.handle_torch(call);
    let name = (call.id.host@, call.stream);
    assert forall|other: StreamName| n.core.streams.contains_key(other) implies chained(
        n.core.queue,
        #[trigger] n.core.streams[other].events,
    ) by {
        if s.core.streams.contains_key(other) {
            assert(chained(s.core.queue, s.core.streams[other].events));
        }
    }
}

/// Whatever the queue answers, the event graph stays sound.
pub proof fn law_graph_sound_after_answer(s: SimView, answer: Answer)
    requires
        graph_sound(s),
    ensures
        graph_sound(s.resume(answer)),
{
    law_resume_leaves_streams(s, answer);
    match s.task {
        Task::Peek { until, next } => lemma_reached_forward(s, until, next),
        Task::Advance { until, next } => lemma_reached_forward(s, until, next),
        _ => {},
    }
}

/// Whether all times of a simulation are replayed.
pub open spec fn replays(s: SimView) -> bool {
    s.cuda.replay() && s.core.times.replay
}

proof fn lemma_check_replayed(c: CoreView, names: Seq<StreamName>, i: int)
    requires
        c.times.replay,
    ensures
        !(c.check_all(names, i) is Measure),
    decreases names.len() - i,
{
    if 0 <= i < names.len() {
        lemma_replay_unmeasured(c.times, split(c.stream(names[i]).buffered, c.single), 0);
        lemma_check_replayed(c, names, i + 1);
    }
}

/// In replay no GPU is needed: nothing has to be measured before a call or an operator can
/// be handled.
pub proof fn law_replay_never_measures(s: SimView, msg: CudaCallMsg, call: TorchCall)
    requires
        replays(s),
    ensures
        s.need(msg) is Ready || s.need(msg) is Refused,
        s.core.times.answer(call.info@) is Some,
{
    let host = msg.id.host@;
    match msg.call {
        CudaCall::CudaDeviceSynchronize(device) => {
            lemma_check_replayed(s.core, s.core.device_streams(host, device), 0);
        },
        CudaCall::NcclP2pGroup { calls } => {
            lemma_check_replayed(s.core, p2p_names(host, p2p_calls(calls@)), 0);
        },
        CudaCall::CudaMemcpyAsync { stream, .. }
        | CudaCall::CudaStreamSynchronize(stream)
        | CudaCall::CudaStreamWaitEvent { stream, .. }
        | CudaCall::CudaStreamQuery(stream)
        | CudaCall::CudaAddLatency(stream, _)
        | CudaCall::FlashAttnCall { stream, .. }
        | CudaCall::NcclBcast { stream, .. }
        | CudaCall::NcclAllReduce { stream, .. }
        | CudaCall::NcclAllGather { stream, .. }
        | CudaCall::NcclReduceScatter { stream, .. }
        | CudaCall::NcclSend { stream, .. }
        | CudaCall::NcclRecv { stream, .. } => {
            let buffered = s.core.stream((host, stream)).buffered;
            lemma_replay_unmeasured(s.core.times, split(buffered, s.core.single), 0);
        },
        CudaCall::CudaEventRecord(event) => {
            let buffered = s.core.stream((host, event_stream(event))).buffered;
            lemma_replay_unmeasured(s.core.times, split(buffered, s.core.single), 0);
        },
        _ => {},
    }
}

proof fn lemma_take_part_replay(s: CollectiveState, p: Participant, nranks: i32, trace: Seq<Flow>)
    ensures
        s.take_part(p, nranks, trace).core.times.replay == s.core.times.replay,
{
    let t = p.curr_time;
    let name = p.name();
    let queue = s.collectives.queue(p.key());
    match first_joinable(queue, p.comm.rank, p.signature, 0) {
        Some(i) => {
            let w = queue[i].with_rank(p.comm.rank);
            let c1 = s.core.event(name, seq![Some(w.barrier)], None, t);
            let reached = s.core.event_id(name);
            let c2 = c1.op(OpView::AddDependency { event: w.start, on: Some(reached) });
            let c3 = c2.event(name, seq![Some(w.end)], None, t);
            lemma_event_extends(s.core, name, seq![Some(w.barrier)], None, t);
            lemma_event_extends(c2, name, seq![Some(w.end)], None, t);
            lemma_completed_extends(c3, w, p.signature.call_of(p.comm, p.stream), t);
        },
        None => {
            let barrier = s.core.next();
            let c1 = s.core.op(point(seq![None], t));
            let reached = c1.event_id(name);
            let c2 = c1.event(name, seq![Some(barrier)], None, t);
            let start = c2.next();
            let c3 = c2.op(point(seq![Some(reached)], t));
            let end = c3.next();
            let c4 = c3.op(point(seq![Some(start)], t));
            lemma_event_extends(c1, name, seq![Some(barrier)], None, t);
            lemma_event_extends(c4, name, seq![Some(end)], None, t);
        },
    }
}

/// A simulation in which all times are replayed stays one, whatever is reported and
/// whatever the queue answers.
pub proof fn law_replay_stays(
    s: SimView,
    msg: CudaCallMsg,
    trace: Seq<Flow>,
    call: TorchCall,
    answer: Answer,
)
    requires
        replays(s),
    ensures
        replays(s.handle(msg, trace)),
        replays(s.handle_torch(call)),
        replays(s.resume(answer)),
{
    law_resume_leaves_streams(s, answer);
    let host = msg.id.host;
    let t = msg.curr_time;
    let n = s.handle(msg, trace);
    match msg.call {
        CudaCall::CudaDeviceSynchronize(device) => {
            lemma_flush_all_extends(s.core, s.core.device_streams(host@, device));
        },
        CudaCall::CudaStreamQuery(stream) => {
            lemma_flush_extends(s.core, (host@, stream));
        },
        CudaCall::NcclBcast { .. }
        | CudaCall::NcclAllReduce { .. }
        | CudaCall::NcclAllGather { .. }
        | CudaCall::NcclReduceScatter { .. } => {
            let (signature, comm, stream) = collective_of(msg.call);
            let p = Participant { host, stream, comm, curr_time: t, signature };
            let nranks = s.comms.groups[comm.id@].len() as i32;
            let state = CollectiveState { core: s.core, collectives: s.collectives };
            lemma_take_part_replay(state, p, nranks, trace);
        },
        CudaCall::NcclSend { stream, .. } | CudaCall::NcclRecv { stream, .. } => {
            let info = p2p_call(msg.call)->0;
            lemma_ungrouped_replay(P2PState { core: s.core, p2p: s.p2p }, host, t, info);
        },
        CudaCall::NcclP2pGroup { calls } => {
            let p2p = p2p_calls(calls@);
            let state = P2PState { core: s.core, p2p: s.p2p };
            lemma_groups_extends(state, host, t, streams_of(p2p), p2p);
        },
        CudaCall::CudaMemcpyAsync { .. }
        | CudaCall::CudaStreamSynchronize(_)
        | CudaCall::CudaStreamWaitEvent { .. }
        | CudaCall::CudaEventRecord(_)
        | CudaCall::CudaAddLatency(_, _)
        | CudaCall::FlashAttnCall { .. } => {
            let (name, deps, action) = stream_event(s, msg);
            lemma_event_extends(s.core, name, deps, action, t);
        },
        _ => {},
    }
}

} // verus!
