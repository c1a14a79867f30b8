//! What is listed beside what it lists: the streams in the order in which they came up, and
//! the ranks of a split in the order in which they joined.

use crate::cuda_call::{CudaCall, CudaCallMsg, HostId};
use crate::event_queue::{Action, EventId, Flow, OpView};
use crate::simulator::collectives::{
    completed, deps_added, first_joinable, flows_added, next_events, CollectiveState, Participant,
    WaitingView,
};
use crate::simulator::comm_laws::{joined_listed, lemma_groups_keep_splits, lemma_listed_more};
use crate::simulator::comms::{colors, no_color_replies, CommState, SplitInfo, SplitView};
use crate::simulator::p2p::{
    group_setup, on_stream, p2p_calls, streams_of, P2PCallInfo, P2PFlowEndpoint, P2PState,
};
use crate::simulator::stream_laws::streams_listed;
use crate::simulator::streams::{CoreView, StreamName, StreamView};
use crate::simulator::task::{Answer, Next, Task};
use crate::simulator::{participant_of, SimView};
use crate::torch_call::TorchCall;
use vstd::prelude::*;

verus! {

/// Whether streams and the ranks of splits are listed, each once.
pub open spec fn all_listed(s: SimView) -> bool {
    &&& streams_listed(s.core)
    &&& splits_listed(s.comms.split)
}

/// Whether the ranks of splits are listed, each once.
pub open spec fn splits_listed(splits: Map<Seq<u8>, SplitView>) -> bool {
    forall|id: Seq<u8>| #[trigger] splits.contains_key(id) ==> joined_listed(splits[id])
}

proof fn lemma_with_stream(core: CoreView, name: StreamName, stream: StreamView)
    requires
        streams_listed(core),
    ensures
        streams_listed(core.with_stream(name, stream)),
{
    let after = core.with_stream(name, stream);
    if !core.streams.contains_key(name) {
        assert(!core.order.contains(name));
        assert forall|other: StreamName| #[trigger]
            after.order.contains(other) <==> after.streams.contains_key(other) by {
            assert(core.order.contains(other) <==> core.streams.contains_key(other));
            if core.order.contains(other) {
                let i = choose|i: int| 0 <= i < core.order.len() && core.order[i] == other;
                assert(after.order[i] == other);
            }
            assert(after.order[core.order.len() as int] == name);
            if after.order.contains(other) && other != name {
                let i = choose|i: int| 0 <= i < after.order.len() && after.order[i] == other;
                assert(core.order[i] == other);
            }
        }
        assert forall|i: int, j: int|
            0 <= i < after.order.len() && 0 <= j < after.order.len() && i
                != j implies after.order[i] != after.order[j] by {
            if i == core.order.len() {
                assert(core.order.contains(core.order[j]));
            } else if j == core.order.len() {
                assert(core.order.contains(core.order[i]));
            }
        }
    } else {
        assert forall|other: StreamName| #[trigger]
            after.order.contains(other) <==> after.streams.contains_key(other) by {
            assert(core.order.contains(other) <==> core.streams.contains_key(other));
        }
    }
}

/// Whether two cores have the same streams, in the same order.
spec fn same_streams(a: CoreView, b: CoreView) -> bool {
    a.streams == b.streams && a.order == b.order
}

proof fn lemma_flush(core: CoreView, name: StreamName)
    requires
        streams_listed(core),
    ensures
        streams_listed(core.flush(name)),
{
    let lane = core.stream(name).flushed(core.times, core.single, core.queue);
    let stream = StreamView { events: lane.events, buffered: seq![] };
    lemma_with_stream(core, name, stream);
    assert(same_streams(core.flush(name), core.with_stream(name, stream)));
}

proof fn lemma_flush_all(core: CoreView, names: Seq<StreamName>)
    requires
        streams_listed(core),
    ensures
        streams_listed(core.flush_all(names)),
    decreases names.len(),
{
    if names.len() > 0 {
        lemma_flush_all(core, names.drop_last());
        lemma_flush(core.flush_all(names.drop_last()), names.last());
    }
}

proof fn lemma_event(
    core: CoreView,
    name: StreamName,
    depends_on: Seq<Option<EventId>>,
    action: Option<Action>,
    time: i64,
)
    requires
        streams_listed(core),
    ensures
        streams_listed(core.event(name, depends_on, action, time)),
{
    let clear = core.flush(name);
    lemma_flush(core, name);
    let after = core.event(name, depends_on, action, time);
    lemma_with_stream(clear, name, after.streams[name]);
    assert(same_streams(after, clear.with_stream(name, after.streams[name])));
}

proof fn lemma_flows(core: CoreView, start: EventId, trace: Seq<Flow>, call: CudaCall, time: i64)
    ensures
        same_streams(flows_added(core, start, trace, call, time), core),
    decreases trace.len(),
{
    if trace.len() > 0 {
        lemma_flows(core, start, trace.drop_last(), call, time);
    }
}

proof fn lemma_deps(core: CoreView, event: EventId, on: Seq<EventId>)
    ensures
        same_streams(deps_added(core, event, on), core),
    decreases on.len(),
{
    if on.len() > 0 {
        lemma_deps(core, event, on.drop_last());
    }
}

proof fn lemma_completed_streams(core: CoreView, w: WaitingView, call: CudaCall, time: i64)
    ensures
        same_streams(completed(core, w, call, time), core),
{
    let flows = flows_added(core, w.start, w.trace, call, time);
    lemma_flows(core, w.start, w.trace, call, time);
    lemma_deps(flows, w.end, next_events(core, w.trace.len()));
}

proof fn lemma_take_part(state: CollectiveState, p: Participant, nranks: i32, trace: Seq<Flow>)
    requires
        streams_listed(state.core),
    ensures
        streams_listed(state.take_part(p, nranks, trace).core),
{
    let t = p.curr_time;
    match first_joinable(state.collectives.queue(p.key()), p.comm.rank, p.signature, 0) {
        Some(i) => {
            let w = state.collectives.queue(p.key())[i].with_rank(p.comm.rank);
            let stream_start = state.core.event_id(p.name());
            lemma_event(state.core, p.name(), seq![Some(w.barrier)], None, t);
            let reached = state.core.event(p.name(), seq![Some(w.barrier)], None, t);
            let tied = reached.op(
                OpView::AddDependency { event: w.start, on: Some(stream_start) },
            );
            assert(streams_listed(tied));
            lemma_event(tied, p.name(), seq![Some(w.end)], None, t);
            let ended = tied.event(p.name(), seq![Some(w.end)], None, t);
            lemma_completed_streams(ended, w, p.signature.call_of(p.comm, p.stream), t);
        },
        None => {
            let barrier = state.core.next();
            let held = state.core.op(OpView::Add { depends_on: seq![None], action: None, time: t });
            assert(streams_listed(held));
            lemma_event(held, p.name(), seq![Some(barrier)], None, t);
            let stream_start = held.event_id(p.name());
            let reached = held.event(p.name(), seq![Some(barrier)], None, t);
            let start = reached.next();
            let started = reached.op(
                OpView::Add { depends_on: seq![Some(stream_start)], action: None, time: t },
            );
            let end = started.next();
            let ended = started.op(
                OpView::Add { depends_on: seq![Some(start)], action: None, time: t },
            );
            assert(streams_listed(ended));
            lemma_event(ended, p.name(), seq![Some(end)], None, t);
        },
    }
}

proof fn lemma_ungrouped(state: P2PState, host: HostId, time: i64, call: P2PCallInfo)
    requires
        streams_listed(state.core),
    ensures
        streams_listed(state.ungrouped(host, time, call).core),
{
    let name = (host@, call.stream);
    let barrier = state.core.next();
    let held = state.core.op(OpView::Add { depends_on: seq![None], action: None, time });
    assert(streams_listed(held));
    let flow_start = held.event_id(name);
    lemma_event(held, name, seq![Some(barrier)], None, time);
    let started = held.event(name, seq![Some(barrier)], None, time);
    lemma_event(started, name, seq![Some(flow_start)], None, time);
    let ended = started.event(name, seq![Some(flow_start)], None, time);
    assert(same_streams(state.ungrouped(host, time, call).core, ended));
}

proof fn lemma_setup(
    core: CoreView,
    host: HostId,
    time: i64,
    group_start: EventId,
    calls: Seq<P2PCallInfo>,
)
    ensures
        same_streams(group_setup(core, host, time, group_start, calls).core, core),
    decreases calls.len(),
{
    if calls.len() > 0 {
        lemma_setup(core, host, time, group_start, calls.drop_last());
    }
}

proof fn lemma_arrive_all(
    state: P2PState,
    calls: Seq<P2PCallInfo>,
    sides: Seq<P2PFlowEndpoint>,
    n: int,
)
    ensures
        same_streams(state.arrive_all(calls, sides, n).core, state.core),
    decreases n,
{
    if n > 0 {
        lemma_arrive_all(state, calls, sides, n - 1);
    }
}

proof fn lemma_groups(
    state: P2PState,
    host: HostId,
    time: i64,
    streams: Seq<crate::cuda_call::CudaStream>,
    calls: Seq<P2PCallInfo>,
)
    requires
        streams_listed(state.core),
    ensures
        streams_listed(state.groups(host, time, streams, calls).core),
    decreases streams.len(),
{
    if streams.len() > 0 {
        lemma_groups(state, host, time, streams.drop_last(), calls);
        let before = state.groups(host, time, streams.drop_last(), calls);
        let part = on_stream(calls, streams.last());
        let name = (host@, streams.last());
        let barrier = before.core.next();
        let held = before.core.op(OpView::Add { depends_on: seq![None], action: None, time });
        assert(streams_listed(held));
        let group_start = held.event_id(name);
        lemma_event(held, name, seq![Some(barrier)], None, time);
        let started = held.event(name, seq![Some(barrier)], None, time);
        let setup = group_setup(started, host, time, group_start, part);
        lemma_setup(started, host, time, group_start, part);
        let deps = crate::simulator::p2p::group_end_deps(group_start, setup.sides);
        lemma_event(setup.core, name, deps, None, time);
        let ended = setup.core.event(name, deps, None, time);
        lemma_arrive_all(
            P2PState { core: ended, ..before },
            part,
            setup.sides,
            part.len() as int,
        );
        assert(same_streams(before.group(host, time, streams.last(), part).core, ended));
    }
}

/// In a simulation in which nothing has happened all that is there is listed.
pub proof fn law_listed_at_first(
    cuda: crate::cuda_estimate::CudaTimes,
    times: crate::torch_estimate::TorchTimes,
    single: bool,
)
    ensures
        all_listed(SimView::initial(cuda, times, single)),
{
}

/// Whatever is reported, streams and the ranks of splits stay listed.
pub proof fn law_calls_keep_listed(
    s: SimView,
    msg: CudaCallMsg,
    trace: Seq<Flow>,
    call: TorchCall,
)
    requires
        all_listed(s),
    ensures
        all_listed(s.handle(msg, trace)),
        all_listed(s.handle_torch(call)),
{
    lemma_handle_listed(s, msg, trace);
    let name = (call.id.host@, call.stream);
    let n = s.handle_torch(call);
    lemma_with_stream(s.core, name, n.core.streams[name]);
    assert(same_streams(n.core, s.core.with_stream(name, n.core.streams[name])));
    assert(n.comms == s.comms);
}

proof fn lemma_handle_listed(s: SimView, msg: CudaCallMsg, trace: Seq<Flow>)
    requires
        all_listed(s),
    ensures
        all_listed(s.handle(msg, trace)),
{
    let host = msg.id.host;
    let t = msg.curr_time;
    let n = s.handle(msg, trace);
    let action = |micros: i64|
        Some(
            Action::Computation(
                crate::event_queue::NodeId(host),
                micros,
                crate::event_queue::ComputeMeta::Cuda(msg.call),
            ),
        );
    assert(n.comms.split == s.comms.split);
    match msg.call {
        CudaCall::CudaMemcpyAsync { size, kind, stream } => {
            let micros = s.cuda.memcpy_answer(kind, size)->0.micros();
            lemma_event(s.core, (host@, stream), seq![], action(micros), t);
        },
        CudaCall::CudaDeviceSynchronize(device) => {
            lemma_flush_all(s.core, s.core.device_streams(host@, device));
            assert(same_streams(
                n.core,
                s.core.flush_all(s.core.device_streams(host@, device)),
            ));
        },
        CudaCall::CudaStreamSynchronize(stream) => {
            lemma_event(s.core, (host@, stream), seq![], None, t);
        },
        CudaCall::CudaStreamWaitEvent { stream, event } => {
            lemma_event(
                s.core,
                (host@, stream),
                seq![Some(s.events[(host@, event)])],
                None,
                t,
            );
        },
        CudaCall::CudaStreamQuery(stream) => {
            lemma_flush(s.core, (host@, stream));
        },
        CudaCall::CudaEventRecord(event) => {
            lemma_event(
                s.core,
                (host@, crate::simulator::event_stream(event)),
                seq![],
                None,
                t,
            );
        },
        CudaCall::CudaAddLatency(stream, latency) => {
            lemma_event(s.core, (host@, stream), seq![], action(latency), t);
        },
        CudaCall::FlashAttnCall { stream, .. } => {
            let key = crate::simulator::flash_key(msg.call);
            let micros = s.cuda.flash_answer(key)->0.micros();
            lemma_event(s.core, (host@, stream), seq![], action(micros), t);
        },
        CudaCall::NcclSend { count, dtype, peer, comm, stream } => {
            let info = crate::simulator::p2p::p2p_call(msg.call)->0;
            lemma_ungrouped(P2PState { core: s.core, p2p: s.p2p }, host, t, info);
        },
        CudaCall::NcclRecv { count, dtype, peer, comm, stream } => {
            let info = crate::simulator::p2p::p2p_call(msg.call)->0;
            lemma_ungrouped(P2PState { core: s.core, p2p: s.p2p }, host, t, info);
        },
        CudaCall::NcclP2pGroup { calls } => {
            let sides = p2p_calls(calls@);
            lemma_groups(
                P2PState { core: s.core, p2p: s.p2p },
                host,
                t,
                streams_of(sides),
                sides,
            );
        },
        _ => {
            if let Some(p) = participant_of(msg) {
                lemma_take_part(
                    CollectiveState { core: s.core, collectives: s.collectives },
                    p,
                    s.comms.groups[p.comm.id@].len() as i32,
                    trace,
                );
            }
        },
    }
}

/// Whatever the queue answers, streams and the ranks of splits stay listed.
pub proof fn law_answers_keep_listed(s: SimView, answer: Answer)
    requires
        all_listed(s),
    ensures
        all_listed(s.resume(answer)),
{
    match s.task {
        Task::Peek { until, next } => lemma_reached_listed(s, until, next),
        Task::Advance { until, next } => lemma_reached_listed(s, until, next),
        _ => {},
    }
}

proof fn lemma_reached_listed(s: SimView, time: i64, next: Next)
    requires
        all_listed(s),
    ensures
        all_listed(s.reached(time, next)),
{
    let state = CommState { comms: s.comms, clock: s.clock };
    match next {
        Next::CommSplit { host, rank, id, color, key } => {
            let after = state.split(host, time, rank, id@, color, key);
            if s.comms.groups.contains_key(id@) {
                let hosts = s.comms.groups[id@];
                let device = crate::simulator::comms::device_of(hosts, host.host@, 0);
                let info = SplitInfo { host, device, color, key };
                if s.comms.split.contains_key(id@) {
                    let old = s.comms.split[id@];
                    lemma_listed_more(old, rank, info);
                    let members = old.with_rank(rank, info).members();
                    let begin = CommState {
                        comms: crate::simulator::comms::CommsView {
                            split: s.comms.split.remove(id@),
                            ..s.comms
                        },
                        clock: no_color_replies(s.clock, members),
                    };
                    lemma_groups_keep_splits(begin, members, colors(members), time);
                } else {
                    assert(seq![rank].contains(rank)) by {
                        assert(seq![rank][0] == rank);
                    }
                }
            }
            assert(splits_listed(after.comms.split));
        },
        _ => {},
    }
}

} // verus!
