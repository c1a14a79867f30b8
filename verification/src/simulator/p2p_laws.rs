//! What sends and receives are for: the two sides of a transfer find each other, and what
//! the sender has goes from its machine to that of the receiver.

use crate::cuda_call::{CudaCall, CudaCallMsg, CudaStream, HostId, NcclComm, NcclDatatype};
use crate::event_queue::{Action, EventId, Flow, OpView};
use crate::simulator::collective_laws::{is_point, lemma_second_event, stream_takes_part};
use crate::simulator::p2p::{
    group_end_deps, group_setup, on_stream, p2p_call, p2p_calls, streams_of, P2PCallInfo,
    P2PCallKind, P2PFlowEndpoint, P2PKey, P2PName, P2PState, Waiting,
};
use crate::simulator::stream_laws::law_event_added;
use crate::simulator::streams::{lemma_event_clear, CoreView};
use crate::simulator::SimView;
use vstd::prelude::*;

verus! {

/// The number of bytes that an element has.
pub open spec fn width(dtype: NcclDatatype) -> int {
    match dtype {
        NcclDatatype::I8 => 1,
        NcclDatatype::U8 => 1,
        NcclDatatype::F16 => 2,
        NcclDatatype::Bf16 => 2,
        NcclDatatype::I32 => 4,
        NcclDatatype::U32 => 4,
        NcclDatatype::F32 => 4,
        NcclDatatype::I64 => 8,
        NcclDatatype::U64 => 8,
        NcclDatatype::F64 => 8,
    }
}

/// The sides that wait for a peer, oldest first.
pub open spec fn line(waiting: Waiting, name: P2PName) -> Seq<P2PFlowEndpoint> {
    if waiting.contains_key(name) {
        waiting[name]
    } else {
        seq![]
    }
}

/// Whether all lines but one stay as they are.
pub open spec fn other_lines_kept(before: Waiting, after: Waiting, name: P2PName) -> bool {
    forall|k: P2PName| k != name ==> #[trigger] line(after, k) == line(before, k)
}

/// Whether the transfer of a matched pair was added: the bytes of the sender go from its
/// machine to that of the receiver, after the starts of both sides; the ends of both wait
/// for it; and neither side is held back any longer.
pub open spec fn transfer_added(
    core: CoreView,
    after: CoreView,
    send: P2PFlowEndpoint,
    recv: P2PFlowEndpoint,
    key: P2PKey,
) -> bool {
    let at = core.queue.len() as int;
    let q = after.queue;
    let bytes = (send.count * width(send.dtype)) as usize;
    &&& q.len() == at + 5
    &&& forall|i: int| 0 <= i < at ==> #[trigger] q[i] == core.queue[i]
    &&& q[at] == (OpView::Add {
        depends_on: seq![Some(send.flow_start), Some(recv.flow_start)],
        action: Some(
            Action::Communication(
                Flow { bytes, src: send.host.hostname, dst: recv.host.hostname },
                CudaCall::NcclSend {
                    count: bytes,
                    dtype: NcclDatatype::U8,
                    peer: key.receiver,
                    comm: NcclComm { rank: key.sender, id: key.comm.0 },
                    stream: send.stream,
                },
            ),
        ),
        time: if send.curr_time < recv.curr_time {
            recv.curr_time
        } else {
            send.curr_time
        },
    })
    &&& q[at + 1] == (OpView::AddDependency { event: send.flow_end, on: Some(at as EventId) })
    &&& q[at + 2] == (OpView::AddDependency { event: recv.flow_end, on: Some(at as EventId) })
    &&& q[at + 3] == (OpView::RemoveNoneDependency { event: send.unmatched_barrier })
    &&& q[at + 4] == (OpView::RemoveNoneDependency { event: recv.unmatched_barrier })
    &&& after.streams == core.streams
}

/// Whether one side of a transfer arrived: where a side of the other kind waits for it, the
/// one that has waited longest is its peer and the transfer is added; otherwise it waits
/// behind those of its own kind.
pub open spec fn side_arrived(
    before: P2PState,
    after: P2PState,
    is_send: bool,
    key: P2PKey,
    e: P2PFlowEndpoint,
) -> bool {
    let name = (key.comm.0@, key.sender, key.receiver);
    let (mine, mine_after) = if is_send {
        (before.p2p.send, after.p2p.send)
    } else {
        (before.p2p.recv, after.p2p.recv)
    };
    let (theirs, theirs_after) = if is_send {
        (before.p2p.recv, after.p2p.recv)
    } else {
        (before.p2p.send, after.p2p.send)
    };
    &&& other_lines_kept(mine, mine_after, name)
    &&& other_lines_kept(theirs, theirs_after, name)
    &&& if line(theirs, name).len() > 0 {
        let peer = line(theirs, name)[0];
        &&& if is_send {
            transfer_added(before.core, after.core, e, peer, key)
        } else {
            transfer_added(before.core, after.core, peer, e, key)
        }
        &&& line(theirs_after, name) == line(theirs, name).skip(1)
        &&& line(mine_after, name) == line(mine, name)
    } else {
        &&& after.core == before.core
        &&& line(theirs_after, name) == line(theirs, name)
        &&& line(mine_after, name) == line(mine, name).push(e)
    }
}

/// One side of a transfer finds its peer or waits for it.
pub proof fn law_side_arrives(
    state: P2PState,
    is_send: bool,
    key: P2PKey,
    endpoint: P2PFlowEndpoint,
)
    ensures
        ({
            let kind = if is_send {
                P2PCallKind::Send
            } else {
                P2PCallKind::Recv
            };
            side_arrived(state, state.arrive(kind, key, endpoint), is_send, key, endpoint)
        }),
{
    let kind = if is_send {
        P2PCallKind::Send
    } else {
        P2PCallKind::Recv
    };
    let after = state.arrive(kind, key, endpoint);
    let name = key@;
    let theirs = state.p2p.other(kind);
    assert(name == (key.comm.0@, key.sender, key.receiver));
    if line(theirs, name).len() > 0 {
        assert(line(after.p2p.other(kind), name) =~= line(theirs, name).skip(1));
    } else {
        assert(line(after.p2p.other(kind), name) =~= line(theirs, name));
        assert(line(after.p2p.side(kind), name) =~= line(state.p2p.side(kind), name).push(
            endpoint,
        ));
    }
}

/// Whether a call is a send or a receive of a rank with its peer.
pub open spec fn is_side(
    call: CudaCall,
    is_send: bool,
    key: P2PKey,
    stream: CudaStream,
    count: usize,
    dtype: NcclDatatype,
) -> bool {
    if is_send {
        call == (CudaCall::NcclSend {
            count,
            dtype,
            peer: key.receiver,
            comm: NcclComm { rank: key.sender, id: key.comm.0 },
            stream,
        })
    } else {
        call == (CudaCall::NcclRecv {
            count,
            dtype,
            peer: key.sender,
            comm: NcclComm { rank: key.receiver, id: key.comm.0 },
            stream,
        })
    }
}

/// A send or receive outside any group occupies its stream from a start, which is held back
/// until the other side is there, to an end that waits for the transfer. It finds the side
/// of the other kind that has waited longest for it, or waits itself.
pub proof fn law_send_or_receive(
    s: SimView,
    msg: CudaCallMsg,
    trace: Seq<Flow>,
    is_send: bool,
    key: P2PKey,
    stream: CudaStream,
    count: usize,
    dtype: NcclDatatype,
) -> (mid: CoreView)
    requires
        is_side(msg.call, is_send, key, stream, count, dtype),
        s.core.ready((msg.id.host@, stream)),
        s.core.queue.len() + s.core.stream((msg.id.host@, stream)).buffered.len() + 8
            <= usize::MAX,
    ensures
        ({
            let n = s.handle(msg, trace);
            let name = (msg.id.host@, stream);
            let t = msg.curr_time;
            let q0 = s.core.queue.len();
            let events = mid.streams[name].events;
            let start = events[events.len() - 2];
            let end = events[events.len() - 1];
            &&& is_point(mid.queue[q0 as int], seq![None], t)
            &&& mid.queue.len() == q0 + s.core.stream(name).buffered.len() + 3
            &&& stream_takes_part(s.core, mid, name, q0 as EventId, seq![Some(start)], t)
            &&& side_arrived(
                P2PState { core: mid, p2p: s.p2p },
                P2PState { core: n.core, p2p: n.p2p },
                is_send,
                key,
                P2PFlowEndpoint {
                    host: msg.id.host,
                    stream,
                    curr_time: t,
                    count,
                    dtype,
                    flow_start: start,
                    flow_end: end,
                    unmatched_barrier: q0 as EventId,
                },
            )
            &&& n.comms == s.comms
            &&& n.collectives == s.collectives
            &&& n.events == s.events
            &&& n.task == s.task
            &&& n.cuda == s.cuda
        }),
{
    let name = (msg.id.host@, stream);
    let t = msg.curr_time;
    let q0 = s.core.queue.len();
    let barrier = q0 as EventId;
    let kind = if is_send {
        P2PCallKind::Send
    } else {
        P2PCallKind::Recv
    };
    let call = P2PCallInfo { kind, key, stream, count, dtype };
    let held = s.core.op(OpView::Add { depends_on: seq![None], action: None, time: t });
    assert(held.stream(name) == s.core.stream(name));
    law_event_added(held, name, seq![Some(barrier)], None, t);
    let start = held.event_id(name);
    let started = held.event(name, seq![Some(barrier)], None, t);
    lemma_event_clear(held, name, seq![Some(barrier)], None, t);
    law_event_added(started, name, seq![Some(start)], None, t);
    let end = started.event_id(name);
    let mid = started.event(name, seq![Some(start)], None, t);
    lemma_second_event(s.core, held, started, started, mid, name, barrier, seq![Some(start)], t);
    assert(mid.queue[q0 as int] == started.queue[q0 as int]);
    assert(started.queue[q0 as int] == held.queue[q0 as int]);
    let endpoint = P2PFlowEndpoint {
        host: msg.id.host,
        stream,
        curr_time: t,
        count,
        dtype,
        flow_start: start,
        flow_end: end,
        unmatched_barrier: barrier,
    };
    law_side_arrives(P2PState { core: mid, p2p: s.p2p }, is_send, key, endpoint);
    let n = s.handle(msg, trace);
    let after = (P2PState { core: s.core, p2p: s.p2p }).ungrouped(msg.id.host, t, call);
    assert(n.core == after.core && n.p2p == after.p2p);
    mid
}

/// The side that a call of a group has, given where its gates are.
pub open spec fn side_of(host: HostId, time: i64, call: P2PCallInfo, at: int) -> P2PFlowEndpoint {
    P2PFlowEndpoint {
        host,
        stream: call.stream,
        curr_time: time,
        count: call.count,
        dtype: call.dtype,
        flow_start: (at + 1) as EventId,
        flow_end: (at + 2) as EventId,
        unmatched_barrier: at as EventId,
    }
}

/// Whether the gates of a side are there: a barrier, a start that waits for the start of the
/// group and for the barrier, and an end that waits for the start.
pub open spec fn gates_added(q: Seq<OpView>, at: int, group_start: EventId, time: i64) -> bool {
    &&& at + 2 < q.len()
    &&& is_point(q[at], seq![None], time)
    &&& is_point(q[at + 1], seq![Some(group_start), Some(at as EventId)], time)
    &&& is_point(q[at + 2], seq![Some((at + 1) as EventId)], time)
}

proof fn lemma_group_setup(
    core: CoreView,
    host: HostId,
    time: i64,
    group_start: EventId,
    calls: Seq<P2PCallInfo>,
)
    ensures
        ({
            let after = group_setup(core, host, time, group_start, calls);
            let base = core.queue.len() as int;
            &&& after.core.streams == core.streams
            &&& after.core.times == core.times
            &&& after.core.single == core.single
            &&& after.core.order == core.order
            &&& after.core.queue.len() == base + 3 * calls.len()
            &&& forall|i: int| 0 <= i < base ==> #[trigger] after.core.queue[i] == core.queue[i]
            &&& after.sides.len() == calls.len()
            &&& forall|k: int|
                0 <= k < calls.len() ==> #[trigger] after.sides[k] == side_of(
                    host,
                    time,
                    calls[k],
                    base + 3 * k,
                ) && gates_added(after.core.queue, base + 3 * k, group_start, time)
        }),
    decreases calls.len(),
{
    if calls.len() > 0 {
        let front = calls.drop_last();
        let base = core.queue.len() as int;
        lemma_group_setup(core, host, time, group_start, front);
        let before = group_setup(core, host, time, group_start, front);
        let after = group_setup(core, host, time, group_start, calls);
        let n = front.len() as int;
        assert forall|k: int| 0 <= k < calls.len() implies #[trigger] after.sides[k] == side_of(
            host,
            time,
            calls[k],
            base + 3 * k,
        ) && gates_added(after.core.queue, base + 3 * k, group_start, time) by {
            if k < n {
                assert(before.sides[k] == side_of(host, time, front[k], base + 3 * k));
                assert(gates_added(before.core.queue, base + 3 * k, group_start, time));
            }
        }
        assert forall|i: int| 0 <= i < base implies #[trigger] after.core.queue[i]
            == core.queue[i] by {
            assert(before.core.queue[i] == core.queue[i]);
        }
    }
}

/// Whether the sends and receives of a group on one stream were added: its start waits for a
/// barrier, each of them has gates of its own behind the start, and its end waits for the
/// ends of all of them. They then arrive one after the other, and the barrier is lifted.
pub open spec fn group_added(
    before: P2PState,
    after: P2PState,
    host: HostId,
    time: i64,
    stream: CudaStream,
    calls: Seq<P2PCallInfo>,
    states: Seq<P2PState>,
) -> bool {
    let name = (host@, stream);
    let q0 = before.core.queue.len() as int;
    let mid = states[0].core;
    let base = q0 + before.core.stream(name).buffered.len() + 2;
    let group_start = (base - 1) as EventId;
    let c = calls.len() as int;
    &&& states.len() == c + 1
    &&& states[0].p2p == before.p2p
    &&& mid.queue.len() == base + 3 * c + 1
    &&& is_point(mid.queue[q0], seq![None], time)
    &&& forall|k: int|
        0 <= k < c ==> #[trigger] gates_added(mid.queue, base + 3 * k, group_start, time)
    &&& stream_takes_part(
        before.core,
        mid,
        name,
        q0 as EventId,
        seq![Some(group_start)] + Seq::new(
            calls.len(),
            |k: int| Some((base + 3 * k + 2) as EventId),
        ),
        time,
    )
    &&& mid.streams[name].events[mid.streams[name].events.len() - 2] == group_start
    &&& forall|k: int|
        #![trigger states[k + 1]]
        0 <= k < c ==> side_arrived(
            states[k],
            states[k + 1],
            calls[k].kind is Send,
            calls[k].key,
            side_of(host, time, calls[k], base + 3 * k),
        )
    &&& after.p2p == states[c].p2p
    &&& after.core.streams == states[c].core.streams
    &&& after.core.queue == states[c].core.queue.push(
        OpView::RemoveNoneDependency { event: q0 as EventId },
    )
}

/// The sends and receives of a group on one stream run beside each other, between the start
/// and the end of the group.
pub proof fn law_group_on_stream(
    state: P2PState,
    host: HostId,
    time: i64,
    stream: CudaStream,
    calls: Seq<P2PCallInfo>,
) -> (states: Seq<P2PState>)
    requires
        state.core.ready((host@, stream)),
        state.core.queue.len() + state.core.stream((host@, stream)).buffered.len() + 3
            * calls.len() + 3 <= usize::MAX,
    ensures
        group_added(
            state,
            state.group(host, time, stream, calls),
            host,
            time,
            stream,
            calls,
            states,
        ),
{
    let name = (host@, stream);
    let q0 = state.core.queue.len() as int;
    let b = state.core.stream(name).buffered.len();
    let c = calls.len() as int;
    let base = q0 + b + 2;
    let barrier = q0 as EventId;
    let held = state.core.op(OpView::Add { depends_on: seq![None], action: None, time });
    assert(held.stream(name) == state.core.stream(name));
    law_event_added(held, name, seq![Some(barrier)], None, time);
    let group_start = held.event_id(name);
    let started = held.event(name, seq![Some(barrier)], None, time);
    assert(started.queue.len() == base);
    lemma_group_setup(started, host, time, group_start, calls);
    let setup = group_setup(started, host, time, group_start, calls);
    lemma_event_clear(held, name, seq![Some(barrier)], None, time);
    assert(setup.core.stream(name) == started.stream(name));
    assert(setup.core.ready(name));
    let ends = seq![Some(group_start)] + Seq::new(
        calls.len(),
        |k: int| Some((base + 3 * k + 2) as EventId),
    );
    assert(group_end_deps(group_start, setup.sides) =~= ends) by {
        assert forall|k: int| 0 <= k < c implies #[trigger] setup.sides[k].flow_end == (base + 3 * k
            + 2) as EventId by {
            assert(setup.sides[k] == side_of(host, time, calls[k], base + 3 * k));
        }
    }
    law_event_added(setup.core, name, ends, None, time);
    let mid = setup.core.event(name, ends, None, time);
    lemma_second_event(state.core, held, started, setup.core, mid, name, barrier, ends, time);
    assert(mid.queue[q0] == held.queue[q0]) by {
        assert(started.queue[q0] == held.queue[q0]);
        assert(setup.core.queue[q0] == started.queue[q0]);
        assert(mid.queue[q0] == setup.core.queue[q0]);
    }
    assert forall|k: int| 0 <= k < c implies #[trigger] gates_added(
        mid.queue,
        base + 3 * k,
        group_start,
        time,
    ) by {
        assert(setup.sides[k] == side_of(host, time, calls[k], base + 3 * k));
        let at = base + 3 * k;
        assert(gates_added(setup.core.queue, at, group_start, time));
        assert(mid.queue[at] == setup.core.queue[at]);
        assert(mid.queue[at + 1] == setup.core.queue[at + 1]);
        assert(mid.queue[at + 2] == setup.core.queue[at + 2]);
    }
    let first = P2PState { core: mid, ..state };
    let states = Seq::new((c + 1) as nat, |k: int| first.arrive_all(calls, setup.sides, k));
    assert(states[0] == first);
    assert forall|k: int|
        #![trigger states[k + 1]]
        0 <= k < c implies side_arrived(
        states[k],
        states[k + 1],
        calls[k].kind is Send,
        calls[k].key,
        side_of(host, time, calls[k], base + 3 * k),
    ) by {
        assert(setup.sides[k] == side_of(host, time, calls[k], base + 3 * k));
        law_side_arrives(states[k], calls[k].kind is Send, calls[k].key, setup.sides[k]);
        assert(states[k + 1] == states[k].arrive(calls[k].kind, calls[k].key, setup.sides[k]));
    }
    let after = state.group(host, time, stream, calls);
    assert(after.core == states[c].core.op(OpView::RemoveNoneDependency { event: barrier }));
    states
}

/// Whether some sends and receives are those among some calls, in order.
pub open spec fn picks_sides(
    calls: Seq<CudaCall>,
    picked: Seq<int>,
    sides: Seq<P2PCallInfo>,
) -> bool {
    &&& picked.len() == sides.len()
    &&& forall|i: int| 0 <= i < picked.len() ==> 0 <= #[trigger] picked[i] < calls.len()
    &&& forall|i: int, j: int|
        0 <= i < j < picked.len() ==> #[trigger] picked[i] < #[trigger] picked[j]
    &&& forall|i: int|
        0 <= i < picked.len() ==> is_side(
            calls[#[trigger] picked[i]],
            sides[i].kind is Send,
            sides[i].key,
            sides[i].stream,
            sides[i].count,
            sides[i].dtype,
        )
    &&& forall|j: int|
        0 <= j < calls.len() && ((#[trigger] calls[j]) is NcclSend || calls[j] is NcclRecv)
            ==> picked.contains(j)
}

/// The sends and receives of a group are all that it holds, in order; other calls are left
/// out.
pub proof fn law_group_sides(calls: Seq<CudaCall>) -> (picked: Seq<int>)
    ensures
        picks_sides(calls, picked, p2p_calls(calls)),
    decreases calls.len(),
{
    if calls.len() == 0 {
        seq![]
    } else {
        let front = calls.drop_last();
        let last = calls.len() - 1;
        let before = law_group_sides(front);
        let sides = p2p_calls(front);
        match p2p_call(calls.last()) {
            Some(info) => {
                let picked = before.push(last);
                let all = p2p_calls(calls);
                assert forall|i: int| 0 <= i < picked.len() implies is_side(
                    calls[#[trigger] picked[i]],
                    all[i].kind is Send,
                    all[i].key,
                    all[i].stream,
                    all[i].count,
                    all[i].dtype,
                ) && 0 <= picked[i] < calls.len() by {
                    if i < before.len() {
                        assert(picked[i] == before[i]);
                        assert(calls[before[i]] == front[before[i]]);
                    }
                }
                assert forall|i: int, j: int| 0 <= i < j < picked.len() implies #[trigger] picked[i]
                    < #[trigger] picked[j] by {
                    if j < before.len() {
                        assert(before[i] < before[j]);
                    } else {
                        assert(picked[i] == before[i]);
                    }
                }
                assert forall|j: int|
                    0 <= j < calls.len() && ((#[trigger] calls[j]) is NcclSend
                        || calls[j] is NcclRecv) implies picked.contains(j) by {
                    if j < last {
                        assert(front[j] == calls[j]);
                        assert(before.contains(j));
                        let i = choose|i: int| 0 <= i < before.len() && before[i] == j;
                        assert(picked[i] == j);
                    } else {
                        assert(picked[before.len() as int] == j);
                    }
                }
                picked
            },
            None => {
                assert forall|i: int| 0 <= i < before.len() implies is_side(
                    calls[#[trigger] before[i]],
                    sides[i].kind is Send,
                    sides[i].key,
                    sides[i].stream,
                    sides[i].count,
                    sides[i].dtype,
                ) by {
                    assert(calls[before[i]] == front[before[i]]);
                }
                assert forall|j: int|
                    0 <= j < calls.len() && ((#[trigger] calls[j]) is NcclSend
                        || calls[j] is NcclRecv) implies before.contains(j) by {
                    if j < last {
                        assert(front[j] == calls[j]);
                    }
                }
                before
            },
        }
    }
}

/// Each stream of a group is there once, and each send or receive is on one of them.
pub proof fn law_group_streams(calls: Seq<P2PCallInfo>)
    ensures
        streams_of(calls).no_duplicates(),
        forall|stream: CudaStream| #[trigger]
            streams_of(calls).contains(stream) <==> exists|i: int|
                0 <= i < calls.len() && (#[trigger] calls[i]).stream == stream,
    decreases calls.len(),
{
    if calls.len() > 0 {
        let front = calls.drop_last();
        let before = streams_of(front);
        let after = streams_of(calls);
        let last = calls.last().stream;
        law_group_streams(front);
        assert forall|stream: CudaStream| #[trigger] after.contains(stream) <==> exists|i: int|
            0 <= i < calls.len() && (#[trigger] calls[i]).stream == stream by {
            assert(before.contains(stream) <==> exists|i: int|
                0 <= i < front.len() && (#[trigger] front[i]).stream == stream);
            if before.contains(stream) {
                let i = choose|i: int|
                    0 <= i < front.len() && (#[trigger] front[i]).stream == stream;
                assert(calls[i] == front[i]);
                let j = choose|j: int| 0 <= j < before.len() && before[j] == stream;
                assert(after[j] == stream);
            }
            if exists|i: int| 0 <= i < calls.len() && (#[trigger] calls[i]).stream == stream {
                let i = choose|i: int|
                    0 <= i < calls.len() && (#[trigger] calls[i]).stream == stream;
                if i < front.len() {
                    assert(front[i].stream == stream);
                } else if !before.contains(stream) {
                    assert(after[before.len() as int] == stream);
                }
            }
            if after.contains(stream) && !before.contains(stream) {
                let j = choose|j: int| 0 <= j < after.len() && after[j] == stream;
                if j < before.len() {
                    assert(before[j] == stream);
                }
                assert(calls[calls.len() - 1].stream == stream);
            }
        }
    }
}

/// A group of calls is a group on each of its streams, one after the other, of the sends and
/// receives on that stream in their order.
pub proof fn law_group_by_streams(
    s: SimView,
    msg: CudaCallMsg,
    trace: Seq<Flow>,
    calls: Seq<CudaCall>,
) -> (states: Seq<P2PState>)
    requires
        msg.call matches CudaCall::NcclP2pGroup { calls: c } && c@ == calls,
    ensures
        ({
            let n = s.handle(msg, trace);
            let sides = p2p_calls(calls);
            let streams = streams_of(sides);
            &&& states.len() == streams.len() + 1
            &&& states[0] == (P2PState { core: s.core, p2p: s.p2p })
            &&& states[streams.len() as int] == (P2PState { core: n.core, p2p: n.p2p })
            &&& forall|k: int|
                #![trigger states[k + 1]]
                0 <= k < streams.len() ==> states[k + 1] == states[k].group(
                    msg.id.host,
                    msg.curr_time,
                    streams[k],
                    sides.filter(|c: P2PCallInfo| c.stream == streams[k]),
                )
            &&& n.comms == s.comms
            &&& n.collectives == s.collectives
            &&& n.events == s.events
            &&& n.task == s.task
            &&& n.cuda == s.cuda
        }),
{
    let sides = p2p_calls(calls);
    let streams = streams_of(sides);
    let first = P2PState { core: s.core, p2p: s.p2p };
    let host = msg.id.host;
    let t = msg.curr_time;
    let states = Seq::new(
        streams.len() + 1,
        |k: int| first.groups(host, t, streams.take(k), sides),
    );
    assert(streams.take(streams.len() as int) =~= streams);
    assert(streams.take(0) =~= seq![]);
    assert forall|k: int|
        #![trigger states[k + 1]]
        0 <= k < streams.len() implies states[k + 1] == states[k].group(
        host,
        t,
        streams[k],
        sides.filter(|c: P2PCallInfo| c.stream == streams[k]),
    ) by {
        assert(streams.take(k + 1).drop_last() =~= streams.take(k));
        let stream = streams[k];
        assert(on_stream(sides, stream) == sides.filter(|c: P2PCallInfo| c.stream == stream));
    }
    states
}

} // verus!
