//! What collective operations are for: the ranks of a communicator meet, and once all of
//! them are there the transfers of the operation run.

use crate::cuda_call::{CudaCall, CudaCallMsg, CudaStream, NcclComm};
use crate::event_queue::{Action, EventId, Flow, OpView};
use crate::simulator::collectives::{
    completed, deps_added, first_joinable, flows_added, law_oldest_joinable, next_events,
    CollectiveKind, CollectiveState, NcclCollectiveSignature, Participant, WaitingView,
};
use crate::simulator::stream_laws::{
    event_added, law_event_added, lemma_worked_off_kept, others_kept, worked_off,
};
use crate::simulator::streams::{lemma_event_clear, CoreView, StreamName};
use crate::simulator::SimView;
use vstd::prelude::*;

verus! {

/// Whether a call is the operation of some kind that it is said to be.
pub open spec fn is_collective(
    call: CudaCall,
    kind: CollectiveKind,
    signature: NcclCollectiveSignature,
    comm: NcclComm,
    stream: CudaStream,
) -> bool {
    match signature {
        NcclCollectiveSignature::Bcast { count, dtype, root } => {
            &&& kind == CollectiveKind::Bcast
            &&& call == CudaCall::NcclBcast { count, dtype, root, comm, stream }
        },
        NcclCollectiveSignature::AllReduce { count, dtype, op } => {
            &&& kind == CollectiveKind::AllReduce
            &&& call == CudaCall::NcclAllReduce { count, dtype, op, comm, stream }
        },
        NcclCollectiveSignature::AllGather { count, dtype } => {
            &&& kind == CollectiveKind::AllGather
            &&& call == CudaCall::NcclAllGather { count, dtype, comm, stream }
        },
        NcclCollectiveSignature::ReduceScatter { count, dtype, op } => {
            &&& kind == CollectiveKind::ReduceScatter
            &&& call == CudaCall::NcclReduceScatter { count, dtype, op, comm, stream }
        },
    }
}

/// Whether a rank can join a collective that waits: it is the same operation, and the rank
/// has not joined it.
pub open spec fn open_to(
    w: WaitingView,
    signature: NcclCollectiveSignature,
    rank: i32,
) -> bool {
    w.signature == signature && !w.joined.contains(rank)
}

/// Whether all collectives but those of one kind on one communicator stay as they are.
pub open spec fn other_collectives_kept(
    s: SimView,
    n: SimView,
    name: (CollectiveKind, Seq<u8>),
) -> bool {
    &&& forall|other: (CollectiveKind, Seq<u8>)|
        other != name ==> #[trigger] n.collectives.queue(other) == s.collectives.queue(other)
    &&& forall|id: Seq<u8>|
        id != name.1 ==> #[trigger] n.collectives.sequence(id) == s.collectives.sequence(id)
    &&& n.comms == s.comms
    &&& n.p2p == s.p2p
    &&& n.events == s.events
    &&& n.exited == s.exited
    &&& n.cuda == s.cuda
    &&& n.task == s.task
}

/// A point in time that waits for events and does nothing.
pub open spec fn is_point(op: OpView, depends_on: Seq<Option<EventId>>, time: i64) -> bool {
    op == OpView::Add { depends_on, action: None, time }
}

/// What a rank that takes part in an operation adds to its stream: a start that waits for a
/// barrier, and an end that waits for what it is told to wait for, both behind all that was
/// enqueued and buffered on the stream.
pub open spec fn stream_takes_part(
    core: CoreView,
    after: CoreView,
    name: StreamName,
    barrier: EventId,
    ends: Seq<Option<EventId>>,
    time: i64,
) -> bool {
    let events = after.streams[name].events;
    let m = events.len() as int;
    let q = after.queue;
    &&& after.streams.contains_key(name)
    &&& after.streams[name].buffered.len() == 0
    &&& m >= 2
    &&& worked_off(core, name, q, events.take(m - 2))
    &&& events[m - 2] < events[m - 1] < q.len()
    &&& is_point(
        q[events[m - 2] as int],
        if m > 2 {
            seq![Some(barrier), Some(events[m - 3])]
        } else {
            seq![Some(barrier)]
        },
        time,
    )
    &&& is_point(q[events[m - 1] as int], ends + seq![Some(events[m - 2])], time)
    &&& others_kept(core, after, name)
    &&& forall|i: int| 0 <= i < core.queue.len() ==> #[trigger] q[i] == core.queue[i]
}

/// A rank that finds no collective to join begins one: it waits for all other ranks of the
/// communicator and will run the transfers that came with this call. Its barrier holds the
/// stream back, its start comes behind the stream, and its end behind its start. No
/// transfer is added yet.
pub proof fn law_collective_begun(
    s: SimView,
    msg: CudaCallMsg,
    trace: Seq<Flow>,
    kind: CollectiveKind,
    signature: NcclCollectiveSignature,
    comm: NcclComm,
    stream: CudaStream,
)
    requires
        is_collective(msg.call, kind, signature, comm, stream),
        s.comms.groups.contains_key(comm.id@),
        s.comms.groups[comm.id@].len() <= i32::MAX,
        s.core.ready((msg.id.host@, stream)),
        s.core.queue.len() + s.core.stream((msg.id.host@, stream)).buffered.len() + 5
            <= usize::MAX,
        s.collectives.sequence(comm.id@) < u64::MAX,
        forall|i: int|
            0 <= i < s.collectives.queue((kind, comm.id@)).len() ==> !open_to(
                #[trigger] s.collectives.queue((kind, comm.id@))[i],
                signature,
                comm.rank,
            ),
    ensures
        ({
            let n = s.handle(msg, trace);
            let key = (kind, comm.id@);
            let name = (msg.id.host@, stream);
            let before = s.collectives.queue(key);
            let after = n.collectives.queue(key);
            let w = after.last();
            let q = n.core.queue;
            let events = n.core.streams[name].events;
            let b = s.core.stream(name).buffered.len();
            let t = msg.curr_time;
            &&& after.len() == before.len() + 1
            &&& after.drop_last() == before
            &&& w.signature == signature
            &&& w.trace == trace
            &&& forall|r: i32| #[trigger] w.joined.contains(r) <==> r == comm.rank
            &&& forall|r: i32| #[trigger]
                w.waiting_for.contains(r) <==> 0 <= r < s.comms.groups[comm.id@].len() && r
                    != comm.rank
            &&& w.sequence == s.collectives.sequence(comm.id@)
            &&& n.collectives.sequence(comm.id@) == w.sequence + 1
            &&& q.len() == s.core.queue.len() + b + 5
            &&& w.barrier == s.core.queue.len()
            &&& is_point(q[w.barrier as int], seq![None], t)
            &&& stream_takes_part(s.core, n.core, name, w.barrier, seq![Some(w.end)], t)
            &&& events[events.len() - 2] == s.core.queue.len() + b + 1
            &&& events[events.len() - 1] == s.core.queue.len() + b + 4
            &&& w.start == s.core.queue.len() + b + 2
            &&& w.end == s.core.queue.len() + b + 3
            &&& is_point(q[w.start as int], seq![Some(events[events.len() - 2])], t)
            &&& is_point(q[w.end as int], seq![Some(w.start)], t)
            &&& other_collectives_kept(s, n, key)
        }),
{
    let n = s.handle(msg, trace);
    let key = (kind, comm.id@);
    let name = (msg.id.host@, stream);
    let t = msg.curr_time;
    let p = Participant { host: msg.id.host, stream, comm, curr_time: t, signature };
    let queue = s.collectives.queue(key);
    assert(p.key() == key);
    assert(p.name() == name);
    law_oldest_joinable(queue, comm.rank, signature, 0);
    if let Some(i) = first_joinable(queue, comm.rank, signature, 0) {
        assert(open_to(queue[i], signature, comm.rank));
    }
    let nranks = s.comms.groups[comm.id@].len() as i32;
    let state = CollectiveState { core: s.core, collectives: s.collectives };
    let done = state.begin(p, nranks, trace);
    assert(n.core == done.core && n.collectives == done.collectives);
    let q0 = s.core.queue.len();
    let barrier = q0 as EventId;
    let held = s.core.op(OpView::Add { depends_on: seq![None], action: None, time: t });
    assert(held.stream(name) == s.core.stream(name));
    law_event_added(held, name, seq![Some(barrier)], None, t);
    let reached = held.event(name, seq![Some(barrier)], None, t);
    let stream_start = held.event_id(name);
    let start = reached.next();
    let started = reached.op(OpView::Add { depends_on: seq![Some(stream_start)], action: None, time: t });
    let end = started.next();
    let ended = started.op(OpView::Add { depends_on: seq![Some(start)], action: None, time: t });
    lemma_event_clear(held, name, seq![Some(barrier)], None, t);
    assert(ended.ready(name));
    assert(ended.stream(name) == reached.stream(name));
    law_event_added(ended, name, seq![Some(end)], None, t);
    let last = ended.event(name, seq![Some(end)], None, t);
    assert(last == n.core);
    lemma_second_event(s.core, held, reached, ended, last, name, barrier, seq![Some(end)], t);
    let after = n.collectives.queue(key);
    assert(after.drop_last() =~= queue);
    let q = last.queue;
    let events = last.streams[name].events;
    let m = events.len() as int;
    assert(q[q0 as int] == held.queue[q0 as int]) by {
        assert(ended.queue[q0 as int] == reached.queue[q0 as int]);
        assert(reached.queue[q0 as int] == held.queue[q0 as int]);
        assert(last.queue[q0 as int] == ended.queue[q0 as int]);
    }
    assert(q[start as int] == ended.queue[start as int]);
    assert(q[end as int] == ended.queue[end as int]);
}

/// The start and the end of a rank on its stream, with points of the collective between
/// them.
pub proof fn lemma_second_event(
    core: CoreView,
    held: CoreView,
    reached: CoreView,
    ended: CoreView,
    last: CoreView,
    name: StreamName,
    barrier: EventId,
    ends: Seq<Option<EventId>>,
    time: i64,
)
    requires
        event_added(held, reached, name, seq![Some(barrier)], None, time),
        event_added(ended, last, name, ends, None, time),
        held.stream(name) == core.stream(name),
        held.times == core.times,
        held.single == core.single,
        held.streams == core.streams,
        core.queue.len() <= held.queue.len(),
        forall|i: int| 0 <= i < core.queue.len() ==> #[trigger] held.queue[i] == core.queue[i],
        ended.streams == reached.streams,
        reached.queue.len() <= ended.queue.len(),
        forall|i: int|
            0 <= i < reached.queue.len() ==> #[trigger] ended.queue[i] == reached.queue[i],
    ensures
        stream_takes_part(core, last, name, barrier, ends, time),
        ({
            let events = last.streams[name].events;
            &&& events[events.len() - 2] == reached.queue.len() - 1
            &&& events[events.len() - 1] == last.queue.len() - 1
        }),
        last.queue.len() == ended.queue.len() + 1,
{
    let first = reached.streams[name].events;
    let events = last.streams[name].events;
    let m = events.len() as int;
    let q = last.queue;
    assert(ended.stream(name).buffered.len() == 0);
    let (starts, durs) = choose|starts: Seq<int>, durs: Seq<crate::duration::Duration>|
        #[trigger] crate::simulator::stream_laws::times_given(
            ended.times,
            ended.stream(name).buffered,
            ended.single,
            starts,
            durs,
        ) && crate::simulator::stream_laws::computed(
            q,
            ended.stream(name),
            durs,
            events.drop_last(),
        );
    assert(events.drop_last() =~= first) by {
        assert forall|i: int| 0 <= i < first.len() implies events.drop_last()[i] == first[i] by {
            assert(events.drop_last()[i] == ended.stream(name).events[i]);
        }
    }
    assert(m == first.len() + 1);
    assert(events[m - 2] == first.last());
    assert(events.take(m - 2) =~= first.drop_last());
    assert forall|i: int| 0 <= i < reached.queue.len() implies #[trigger] q[i]
        == reached.queue[i] by {
        assert(ended.queue[i] == reached.queue[i]);
    }
    lemma_worked_off_kept(held, name, reached.queue, q, first.drop_last());
    assert(worked_off(core, name, q, first.drop_last())) by {
        let (st, du) = choose|st: Seq<int>, du: Seq<crate::duration::Duration>|
            #[trigger] crate::simulator::stream_laws::times_given(
                held.times,
                held.stream(name).buffered,
                held.single,
                st,
                du,
            ) && crate::simulator::stream_laws::computed(
                q,
                held.stream(name),
                du,
                first.drop_last(),
            );
        assert(crate::simulator::stream_laws::times_given(
            core.times,
            core.stream(name).buffered,
            core.single,
            st,
            du,
        ));
    }
    assert(q[events[m - 2] as int] == reached.queue[events[m - 2] as int]);
    if m > 2 {
        assert(events[m - 3] == first[first.len() - 2]);
        assert(seq![Some(barrier)] + seq![Some(events[m - 3])] =~= seq![
            Some(barrier),
            Some(events[m - 3]),
        ]);
    } else {
        assert(seq![Some(barrier)] + Seq::<Option<EventId>>::empty() =~= seq![Some(barrier)]);
    }
    assert forall|i: int| 0 <= i < core.queue.len() implies #[trigger] q[i] == core.queue[i] by {
        assert(held.queue[i] == core.queue[i]);
        assert(reached.queue[i] == held.queue[i]);
    }
    assert forall|other: StreamName| other != name && core.streams.contains_key(
        other,
    ) implies #[trigger] last.streams[other] == core.streams[other] by {
        assert(reached.streams.contains_key(other) <==> held.streams.contains_key(other));
        assert(reached.streams[other] == held.streams[other]);
        assert(last.streams[other] == ended.streams[other]);
    }
    assert forall|other: StreamName| other != name implies (#[trigger] last.streams.contains_key(
        other,
    ) <==> core.streams.contains_key(other)) by {
        assert(reached.streams.contains_key(other) <==> held.streams.contains_key(other));
        assert(last.streams.contains_key(other) <==> ended.streams.contains_key(other));
    }
}

proof fn lemma_flows_added(
    core: CoreView,
    start: EventId,
    trace: Seq<Flow>,
    call: CudaCall,
    time: i64,
)
    ensures
        ({
            let after = flows_added(core, start, trace, call, time);
            &&& after.streams == core.streams
            &&& after.queue.len() == core.queue.len() + trace.len()
            &&& forall|i: int|
                0 <= i < core.queue.len() ==> #[trigger] after.queue[i] == core.queue[i]
            &&& forall|k: int|
                0 <= k < trace.len() ==> #[trigger] after.queue[core.queue.len() + k]
                    == (OpView::Add {
                    depends_on: seq![Some(start)],
                    action: Some(Action::Communication(trace[k], call)),
                    time,
                })
        }),
    decreases trace.len(),
{
    if trace.len() > 0 {
        let before = flows_added(core, start, trace.drop_last(), call, time);
        let after = flows_added(core, start, trace, call, time);
        lemma_flows_added(core, start, trace.drop_last(), call, time);
        assert forall|k: int| 0 <= k < trace.len() implies #[trigger] after.queue[core.queue.len()
            + k] == (OpView::Add {
            depends_on: seq![Some(start)],
            action: Some(Action::Communication(trace[k], call)),
            time,
        }) by {
            if k < trace.len() - 1 {
                assert(before.queue[core.queue.len() + k] == after.queue[core.queue.len() + k]);
            }
        }
        assert forall|i: int| 0 <= i < core.queue.len() implies #[trigger] after.queue[i]
            == core.queue[i] by {
            assert(before.queue[i] == core.queue[i]);
        }
    }
}

proof fn lemma_deps_added(core: CoreView, event: EventId, on: Seq<EventId>)
    ensures
        ({
            let after = deps_added(core, event, on);
            &&& after.streams == core.streams
            &&& after.queue.len() == core.queue.len() + on.len()
            &&& forall|i: int|
                0 <= i < core.queue.len() ==> #[trigger] after.queue[i] == core.queue[i]
            &&& forall|k: int|
                0 <= k < on.len() ==> #[trigger] after.queue[core.queue.len() + k]
                    == (OpView::AddDependency { event, on: Some(on[k]) })
        }),
    decreases on.len(),
{
    if on.len() > 0 {
        let before = deps_added(core, event, on.drop_last());
        let after = deps_added(core, event, on);
        lemma_deps_added(core, event, on.drop_last());
        assert forall|k: int| 0 <= k < on.len() implies #[trigger] after.queue[core.queue.len() + k]
            == (OpView::AddDependency { event, on: Some(on[k]) }) by {
            if k < on.len() - 1 {
                assert(before.queue[core.queue.len() + k] == after.queue[core.queue.len() + k]);
            }
        }
        assert forall|i: int| 0 <= i < core.queue.len() implies #[trigger] after.queue[i]
            == core.queue[i] by {
            assert(before.queue[i] == core.queue[i]);
        }
    }
}

/// What the completion of a collective adds from some place on: one transfer for each of
/// its transfers, in order, behind its start; its end waits for every one of them; and its
/// barrier is lifted.
pub open spec fn transfers_run(
    q: Seq<OpView>,
    at: int,
    w: WaitingView,
    call: CudaCall,
    time: i64,
) -> bool {
    let f = w.trace.len() as int;
    &&& q.len() == at + 2 * f + 1
    &&& forall|k: int|
        0 <= k < f ==> #[trigger] q[at + k] == (OpView::Add {
            depends_on: seq![Some(w.start)],
            action: Some(Action::Communication(w.trace[k], call)),
            time,
        })
    &&& forall|k: int|
        0 <= k < f ==> #[trigger] q[at + f + k] == (OpView::AddDependency {
            event: w.end,
            on: Some((at + k) as EventId),
        })
    &&& q[at + 2 * f] == (OpView::RemoveNoneDependency { event: w.barrier })
}

proof fn lemma_completed(core: CoreView, w: WaitingView, call: CudaCall, time: i64)
    ensures
        ({
            let after = completed(core, w, call, time);
            &&& after.streams == core.streams
            &&& transfers_run(after.queue, core.queue.len() as int, w, call, time)
            &&& forall|i: int|
                0 <= i < core.queue.len() ==> #[trigger] after.queue[i] == core.queue[i]
        }),
{
    let at = core.queue.len() as int;
    let f = w.trace.len() as int;
    let flows = flows_added(core, w.start, w.trace, call, time);
    let ids = next_events(core, w.trace.len());
    let deps = deps_added(flows, w.end, ids);
    let after = completed(core, w, call, time);
    lemma_flows_added(core, w.start, w.trace, call, time);
    lemma_deps_added(flows, w.end, ids);
    assert forall|k: int| 0 <= k < f implies #[trigger] after.queue[at + k] == (OpView::Add {
        depends_on: seq![Some(w.start)],
        action: Some(Action::Communication(w.trace[k], call)),
        time,
    }) by {
        assert(deps.queue[at + k] == flows.queue[at + k]);
    }
    assert forall|k: int| 0 <= k < f implies #[trigger] after.queue[at + f + k] == (
    OpView::AddDependency { event: w.end, on: Some((at + k) as EventId) }) by {
        assert(deps.queue[flows.queue.len() + k] == (OpView::AddDependency {
            event: w.end,
            on: Some(ids[k]),
        }));
    }
    assert forall|i: int| 0 <= i < core.queue.len() implies #[trigger] after.queue[i]
        == core.queue[i] by {
        assert(flows.queue[i] == core.queue[i]);
        assert(deps.queue[i] == flows.queue[i]);
    }
}

/// A rank joins the oldest collective that it can join. Its stream waits for the barrier of
/// the collective, whose start waits for the stream. When it is the last rank, the
/// collective waits no longer and runs exactly the transfers with which it was begun: one
/// for each of them, in order, after the start, and the end waits for all of them.
/// Otherwise no transfer is added, and the collective goes on waiting for the others.
pub proof fn law_collective_joined(
    s: SimView,
    msg: CudaCallMsg,
    trace: Seq<Flow>,
    kind: CollectiveKind,
    signature: NcclCollectiveSignature,
    comm: NcclComm,
    stream: CudaStream,
    i: int,
)
    requires
        is_collective(msg.call, kind, signature, comm, stream),
        s.comms.groups.contains_key(comm.id@),
        s.core.ready((msg.id.host@, stream)),
        s.handle(msg, trace).core.queue.len() <= usize::MAX,
        s.core.queue.len() + s.core.stream((msg.id.host@, stream)).buffered.len() + 3
            <= usize::MAX,
        0 <= i < s.collectives.queue((kind, comm.id@)).len(),
        open_to(s.collectives.queue((kind, comm.id@))[i], signature, comm.rank),
        forall|j: int|
            0 <= j < i ==> !open_to(
                #[trigger] s.collectives.queue((kind, comm.id@))[j],
                signature,
                comm.rank,
            ),
    ensures
        ({
            let n = s.handle(msg, trace);
            let key = (kind, comm.id@);
            let name = (msg.id.host@, stream);
            let before = s.collectives.queue(key);
            let after = n.collectives.queue(key);
            let w = before[i];
            let q = n.core.queue;
            let events = n.core.streams[name].events;
            let b = s.core.stream(name).buffered.len();
            let t = msg.curr_time;
            let at = (s.core.queue.len() + b) as int;
            &&& stream_takes_part(s.core, n.core, name, w.barrier, seq![Some(w.end)], t)
            &&& events[events.len() - 2] == at
            &&& events[events.len() - 1] == at + 2
            &&& q[at + 1] == (OpView::AddDependency { event: w.start, on: Some(at as EventId) })
            &&& if forall|r: i32| #[trigger] w.waiting_for.contains(r) ==> r == comm.rank {
                &&& after == before.remove(i)
                &&& transfers_run(q, at + 3, w, msg.call, t)
            } else {
                &&& q.len() == at + 3
                &&& after.len() == before.len()
                &&& forall|j: int|
                    0 <= j < before.len() && j != i ==> #[trigger] after[j] == before[j]
                &&& after[i].signature == signature
                &&& after[i].trace == w.trace
                &&& after[i].sequence == w.sequence
                &&& after[i].start == w.start
                &&& after[i].end == w.end
                &&& after[i].barrier == w.barrier
                &&& forall|r: i32| #[trigger]
                    after[i].joined.contains(r) <==> w.joined.contains(r) || r == comm.rank
                &&& forall|r: i32| #[trigger]
                    after[i].waiting_for.contains(r) <==> w.waiting_for.contains(r) && r
                        != comm.rank
            }
            &&& n.collectives.begun == s.collectives.begun
            &&& other_collectives_kept(s, n, key)
        }),
{
    let n = s.handle(msg, trace);
    let key = (kind, comm.id@);
    let name = (msg.id.host@, stream);
    let t = msg.curr_time;
    let p = Participant { host: msg.id.host, stream, comm, curr_time: t, signature };
    let queue = s.collectives.queue(key);
    assert(p.key() == key);
    assert(p.name() == name);
    law_oldest_joinable(queue, comm.rank, signature, 0);
    assert(queue[i].joinable(comm.rank, signature));
    if let Some(k) = first_joinable(queue, comm.rank, signature, 0) {
        if k < i {
            assert(open_to(queue[k], signature, comm.rank));
        }
    }
    assert(first_joinable(queue, comm.rank, signature, 0) == Some(i));
    let state = CollectiveState { core: s.core, collectives: s.collectives };
    let done = state.join(p, i);
    assert(n.core == done.core && n.collectives == done.collectives);
    let w = queue[i];
    let rest = w.with_rank(comm.rank);
    law_event_added(s.core, name, seq![Some(w.barrier)], None, t);
    let reached = s.core.event(name, seq![Some(w.barrier)], None, t);
    let stream_start = s.core.event_id(name);
    let tied = reached.op(OpView::AddDependency { event: w.start, on: Some(stream_start) });
    lemma_event_clear(s.core, name, seq![Some(w.barrier)], None, t);
    assert(tied.ready(name));
    assert(tied.stream(name) == reached.stream(name));
    law_event_added(tied, name, seq![Some(w.end)], None, t);
    let ended = tied.event(name, seq![Some(w.end)], None, t);
    let ends = seq![Some(w.end)];
    lemma_second_event(s.core, s.core, reached, tied, ended, name, w.barrier, ends, t);
    let at = reached.queue.len() - 1;
    assert(ended.queue[at + 1] == tied.queue[at + 1]);
    let call = signature.call_of(comm, stream);
    assert(call == msg.call);
    if rest.waiting_for =~= Set::empty() {
        assert(n.core == completed(ended, rest, call, t));
        lemma_completed(ended, rest, call, t);
        lemma_takes_part_kept(s.core, ended, n.core, name, w.barrier, ends, t);
        assert forall|r: i32| #[trigger] w.waiting_for.contains(r) implies r == comm.rank by {
            if r != comm.rank {
                assert(rest.waiting_for.contains(r));
            }
        }
        assert(n.core.queue[at + 1] == ended.queue[at + 1]);
        assert(transfers_run(n.core.queue, at + 3, rest, call, t));
        assert(transfers_run(n.core.queue, at + 3, w, call, t));
    } else {
        assert(n.core == ended);
        assert(exists|r: i32| #[trigger] rest.waiting_for.contains(r)) by {
            if forall|r: i32| !#[trigger] rest.waiting_for.contains(r) {
                assert(rest.waiting_for =~= Set::empty());
            }
        }
        let r = choose|r: i32| #[trigger] rest.waiting_for.contains(r);
        assert(w.waiting_for.contains(r) && r != comm.rank);
    }
}

/// What a rank added to its stream stays when more is enqueued.
pub proof fn lemma_takes_part_kept(
    core: CoreView,
    ended: CoreView,
    last: CoreView,
    name: StreamName,
    barrier: EventId,
    ends: Seq<Option<EventId>>,
    time: i64,
)
    requires
        stream_takes_part(core, ended, name, barrier, ends, time),
        last.streams == ended.streams,
        ended.queue.len() <= last.queue.len(),
        core.queue.len() <= ended.queue.len(),
        forall|i: int|
            0 <= i < ended.queue.len() ==> #[trigger] last.queue[i] == ended.queue[i],
    ensures
        stream_takes_part(core, last, name, barrier, ends, time),
{
    let events = ended.streams[name].events;
    let m = events.len() as int;
    lemma_worked_off_kept(core, name, ended.queue, last.queue, events.take(m - 2));
    assert(last.queue[events[m - 2] as int] == ended.queue[events[m - 2] as int]);
    assert(last.queue[events[m - 1] as int] == ended.queue[events[m - 1] as int]);
    assert forall|i: int| 0 <= i < core.queue.len() implies #[trigger] last.queue[i]
        == core.queue[i] by {
        assert(ended.queue[i] == core.queue[i]);
    }
}

} // verus!
