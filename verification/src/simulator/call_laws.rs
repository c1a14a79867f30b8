//! What the calls of a traced process are for: what each of them adds to the event graph,
//! and who waits for what.

use crate::cuda_call::{CudaCall, CudaCallMsg, CudaEvent, CudaStream, ResponseId, SyncResponse};
use crate::cuda_estimate::CudaTimes;
use crate::duration::Duration;
use crate::event_queue::{Action, ComputeMeta, EventId, Flow, NodeId, OpView, QueueStep};
use crate::nccl_id::{id_count, id_number, lemma_next_number};
use crate::perf_db::FlashAttnKey;
use crate::simulator::comms::{CommState, InitMember};
use crate::simulator::hosts::{ClockView, HostName, HostTime, Reply, ReplyBody, SyncPoint};
use crate::simulator::stream_laws::{
    ends, event_added, law_device_worked_off, law_event_added, law_stream_worked_off, on_device,
    others_kept, streams_listed, worked_off,
};
use crate::simulator::streams::{CoreView, StreamName};
use crate::simulator::task::{Answer, Next, Request, Task};
use crate::simulator::SimView;
use crate::torch_call::TorchCall;
use crate::torch_estimate::TorchTimes;
use vstd::prelude::*;

verus! {

/// Whether all but the streams, the clocks and the known times of copies and kernels stays
/// as it is.
pub open spec fn rest_kept(s: SimView, n: SimView) -> bool {
    &&& n.exited == s.exited
    &&& n.comms == s.comms
    &&& n.collectives == s.collectives
    &&& n.p2p == s.p2p
}

/// The microseconds of a time that is known, or none in replay.
pub open spec fn known_micros<K>(times: Map<K, Duration>, key: K) -> i64 {
    if times.contains_key(key) {
        (times[key].nanos / 1000) as i64
    } else {
        0
    }
}

/// Whether a time was asked for: one that is known changes nothing, and one that is not is
/// noted as missing and counts as none from then on.
pub open spec fn noted<K>(
    times: Map<K, Duration>,
    missing: Seq<K>,
    key: K,
    times_after: Map<K, Duration>,
    missing_after: Seq<K>,
) -> bool {
    if times.contains_key(key) {
        times_after == times && missing_after == missing
    } else {
        times_after == times.insert(key, Duration { nanos: 0 }) && missing_after == missing.push(
            key,
        )
    }
}

/// Whether a computation was added to a stream of a process.
pub open spec fn computation_added(
    s: SimView,
    n: SimView,
    msg: CudaCallMsg,
    stream: CudaStream,
    micros: i64,
) -> bool {
    event_added(
        s.core,
        n.core,
        (msg.id.host@, stream),
        seq![],
        Some(Action::Computation(NodeId(msg.id.host), micros, ComputeMeta::Cuda(msg.call))),
        msg.curr_time,
    )
}

/// Whether one more event finds room on a stream.
pub open spec fn has_room(core: CoreView, name: StreamName) -> bool {
    core.ready(name) && core.queue.len() + core.stream(name).buffered.len() < usize::MAX
}

/// A copy keeps its stream busy for the time that is known for copies of its kind and
/// size.
pub proof fn law_copy_takes_its_time(s: SimView, msg: CudaCallMsg, trace: Seq<Flow>)
    requires
        msg.call is CudaMemcpyAsync,
        has_room(s.core, (msg.id.host@, msg.call->CudaMemcpyAsync_stream)),
        s.cuda.memcpy.contains_key(
            (msg.call->CudaMemcpyAsync_kind, msg.call->CudaMemcpyAsync_size),
        ) || s.cuda.gpu is None,
    ensures
        match msg.call {
            CudaCall::CudaMemcpyAsync { size, kind, stream } => {
                let n = s.handle(msg, trace);
                &&& computation_added(
                    s,
                    n,
                    msg,
                    stream,
                    known_micros(s.cuda.memcpy, (kind, size)),
                )
                &&& noted(
                    s.cuda.memcpy,
                    s.cuda.missing_memcpy,
                    (kind, size),
                    n.cuda.memcpy,
                    n.cuda.missing_memcpy,
                )
                &&& n.cuda.gpu == s.cuda.gpu
                &&& n.cuda.flash_attn == s.cuda.flash_attn
                &&& n.cuda.missing_flash == s.cuda.missing_flash
                &&& rest_kept(s, n)
                &&& n.events == s.events
                &&& n.task == s.task
            },
            _ => false,
        },
{
    if let CudaCall::CudaMemcpyAsync { size, kind, stream } = msg.call {
        let dur = s.cuda.memcpy_answer(kind, size)->0;
        law_event_added(
            s.core,
            (msg.id.host@, stream),
            seq![],
            Some(
                Action::Computation(NodeId(msg.id.host), dur.micros(), ComputeMeta::Cuda(msg.call)),
            ),
            msg.curr_time,
        );
    }
}

/// A latency keeps its stream busy for as long as it says.
pub proof fn law_latency_takes_its_time(s: SimView, msg: CudaCallMsg, trace: Seq<Flow>)
    requires
        msg.call is CudaAddLatency,
        has_room(s.core, (msg.id.host@, msg.call->CudaAddLatency_0)),
    ensures
        match msg.call {
            CudaCall::CudaAddLatency(stream, micros) => {
                let n = s.handle(msg, trace);
                &&& computation_added(s, n, msg, stream, micros)
                &&& rest_kept(s, n)
                &&& n.events == s.events
                &&& n.task == s.task
                &&& n.cuda == s.cuda
            },
            _ => false,
        },
{
    if let CudaCall::CudaAddLatency(stream, micros) = msg.call {
        law_event_added(
            s.core,
            (msg.id.host@, stream),
            seq![],
            Some(Action::Computation(NodeId(msg.id.host), micros, ComputeMeta::Cuda(msg.call))),
            msg.curr_time,
        );
    }
}

/// A flash-attention kernel keeps its stream busy for the time that is known for kernels
/// of its sizes.
pub proof fn law_flash_attn_takes_its_time(
    s: SimView,
    msg: CudaCallMsg,
    trace: Seq<Flow>,
    key: FlashAttnKey,
    stream: CudaStream,
)
    requires
        msg.call == (CudaCall::FlashAttnCall {
            stream,
            is_fwd: key.is_fwd,
            is_bf16: key.is_bf16,
            batch_size: key.batch_size,
            seqlen_q: key.seqlen_q,
            seqlen_k: key.seqlen_k,
            num_heads: key.num_heads,
            num_heads_k: key.num_heads_k,
            head_size: key.head_size,
            window_size_left: key.window_size_left,
            window_size_right: key.window_size_right,
            is_causal: key.is_causal,
        }),
        has_room(s.core, (msg.id.host@, stream)),
        s.cuda.flash_attn.contains_key(key) || s.cuda.gpu is None,
    ensures
        ({
            let n = s.handle(msg, trace);
            &&& computation_added(s, n, msg, stream, known_micros(s.cuda.flash_attn, key))
            &&& noted(
                s.cuda.flash_attn,
                s.cuda.missing_flash,
                key,
                n.cuda.flash_attn,
                n.cuda.missing_flash,
            )
            &&& n.cuda.gpu == s.cuda.gpu
            &&& n.cuda.memcpy == s.cuda.memcpy
            &&& n.cuda.missing_memcpy == s.cuda.missing_memcpy
            &&& rest_kept(s, n)
            &&& n.events == s.events
            &&& n.task == s.task
        }),
{
    assert(crate::simulator::flash_key(msg.call) == key);
    let dur = s.cuda.flash_answer(key)->0;
    law_event_added(
        s.core,
        (msg.id.host@, stream),
        seq![],
        Some(Action::Computation(NodeId(msg.id.host), dur.micros(), ComputeMeta::Cuda(msg.call))),
        msg.curr_time,
    );
}

/// Whether a thread waits for an event, up to which the queue is run.
pub open spec fn waits_for(s: SimView, n: SimView, who: ResponseId, event: EventId) -> bool {
    &&& n.task == (Task::RunTo { event })
    &&& n.clock.syncing == s.clock.syncing.insert(event, who)
    &&& n.clock.replies == s.clock.replies
}

/// A thread that synchronizes with a stream waits for a point behind all that was
/// enqueued and buffered there.
pub proof fn law_stream_synchronized(s: SimView, msg: CudaCallMsg, trace: Seq<Flow>)
    requires
        msg.call is CudaStreamSynchronize,
        has_room(s.core, (msg.id.host@, msg.call->CudaStreamSynchronize_0)),
    ensures
        match msg.call {
            CudaCall::CudaStreamSynchronize(stream) => {
                let n = s.handle(msg, trace);
                let name = (msg.id.host@, stream);
                &&& event_added(s.core, n.core, name, seq![], None, msg.curr_time)
                &&& waits_for(s, n, msg.id, n.core.streams[name].events.last())
                &&& rest_kept(s, n)
                &&& n.events == s.events
                &&& n.cuda == s.cuda
            },
            _ => false,
        },
{
    if let CudaCall::CudaStreamSynchronize(stream) = msg.call {
        law_event_added(s.core, (msg.id.host@, stream), seq![], None, msg.curr_time);
    }
}

/// A thread that synchronizes with a device waits for a point behind all that its process
/// has enqueued and buffered on the streams of the device: nothing is buffered there any
/// longer, every call that was is a computation, and the point depends on the last event
/// of each of these streams and on nothing else.
pub proof fn law_device_synchronized(s: SimView, msg: CudaCallMsg, trace: Seq<Flow>)
    requires
        msg.call is CudaDeviceSynchronize,
        streams_listed(s.core),
        forall|name: StreamName|
            s.core.streams.contains_key(name) && on_device(
                name,
                msg.id.host@,
                msg.call->CudaDeviceSynchronize_0,
            ) ==> #[trigger] s.core.ready(name),
        s.handle(msg, trace).core.queue.len() <= usize::MAX,
    ensures
        match msg.call {
            CudaCall::CudaDeviceSynchronize(device) => {
                let host = msg.id.host@;
                let n = s.handle(msg, trace);
                let last = n.core.queue.len() - 1;
                let point = n.core.queue[last];
                &&& s.core.queue.len() <= last
                &&& forall|i: int|
                    0 <= i < s.core.queue.len() ==> #[trigger] n.core.queue[i] == s.core.queue[i]
                &&& point is Add
                &&& point->action is None
                &&& point->time == msg.curr_time
                &&& forall|name: StreamName| #[trigger]
                    s.core.streams.contains_key(name) && on_device(name, host, device) ==> {
                        let events = n.core.streams[name].events;
                        &&& n.core.streams.contains_key(name)
                        &&& n.core.streams[name].buffered.len() == 0
                        &&& worked_off(s.core, name, n.core.queue, events)
                        &&& events.len() > 0 ==> point->depends_on.contains(Some(events.last()))
                    }
                &&& forall|d: Option<EventId>| #[trigger]
                    point->depends_on.contains(d) ==> exists|name: StreamName|
                        on_device(name, host, device) && #[trigger] ends(n.core, name, d)
                &&& forall|name: StreamName|
                    !on_device(name, host, device) ==> #[trigger] n.core.stream(name)
                        == s.core.stream(name)
                &&& waits_for(s, n, msg.id, last as EventId)
                &&& rest_kept(s, n)
                &&& n.events == s.events
                &&& n.cuda == s.cuda
            },
            _ => false,
        },
{
    if let CudaCall::CudaDeviceSynchronize(device) = msg.call {
        let host = msg.id.host@;
        let n = s.handle(msg, trace);
        let names = s.core.device_streams(host, device);
        let clear = s.core.flush_all(names);
        let waited = s.core.last_events(names);
        let last = n.core.queue.len() - 1;
        assert(n.core.queue == clear.queue.push(
            OpView::Add { depends_on: waited, action: None, time: msg.curr_time },
        ));
        law_device_worked_off(s.core, host, device);
        assert forall|i: int| 0 <= i < s.core.queue.len() implies #[trigger] n.core.queue[i]
            == s.core.queue[i] by {
            assert(clear.queue[i] == s.core.queue[i]);
        }
        assert forall|name: StreamName| #[trigger]
            s.core.streams.contains_key(name) && on_device(name, host, device) implies {
            let events = n.core.streams[name].events;
            &&& n.core.streams.contains_key(name)
            &&& n.core.streams[name].buffered.len() == 0
            &&& worked_off(s.core, name, n.core.queue, events)
            &&& events.len() > 0 ==> waited.contains(Some(events.last()))
        } by {
            assert(clear.streams.contains_key(name));
            crate::simulator::stream_laws::lemma_worked_off_kept(
                s.core,
                name,
                clear.queue,
                n.core.queue,
                clear.streams[name].events,
            );
        }
        assert forall|d: Option<EventId>| #[trigger] waited.contains(d) implies exists|
            name: StreamName,
        | on_device(name, host, device) && #[trigger] ends(n.core, name, d) by {
            let name = choose|name: StreamName|
                on_device(name, host, device) && #[trigger] ends(clear, name, d);
            assert(ends(n.core, name, d));
        }
        assert forall|name: StreamName| !on_device(name, host, device) implies #[trigger] n.core.stream(
            name,
        ) == s.core.stream(name) by {
            assert(clear.stream(name) == s.core.stream(name));
        }
    }
}

/// A stream that waits for an event goes on behind the event that was last recorded under
/// its name.
pub proof fn law_stream_waits_for_event(s: SimView, msg: CudaCallMsg, trace: Seq<Flow>)
    requires
        msg.call is CudaStreamWaitEvent,
        has_room(s.core, (msg.id.host@, msg.call->CudaStreamWaitEvent_stream)),
    ensures
        match msg.call {
            CudaCall::CudaStreamWaitEvent { stream, event } => {
                let n = s.handle(msg, trace);
                &&& event_added(
                    s.core,
                    n.core,
                    (msg.id.host@, stream),
                    seq![Some(s.events[(msg.id.host@, event)])],
                    None,
                    msg.curr_time,
                )
                &&& rest_kept(s, n)
                &&& n.events == s.events
                &&& n.task == s.task
                &&& n.cuda == s.cuda
            },
            _ => false,
        },
{
    if let CudaCall::CudaStreamWaitEvent { stream, event } = msg.call {
        law_event_added(
            s.core,
            (msg.id.host@, stream),
            seq![Some(s.events[(msg.id.host@, event)])],
            None,
            msg.curr_time,
        );
    }
}

/// An event that is recorded is a point behind all that was enqueued and buffered on its
/// stream, and the one that is meant by its name from then on.
pub proof fn law_event_recorded(s: SimView, msg: CudaCallMsg, trace: Seq<Flow>)
    requires
        msg.call is CudaEventRecord,
        has_room(
            s.core,
            (
                msg.id.host@,
                CudaStream {
                    device: msg.call->CudaEventRecord_0.device,
                    id: msg.call->CudaEventRecord_0.stream,
                },
            ),
        ),
    ensures
        match msg.call {
            CudaCall::CudaEventRecord(event) => {
                let n = s.handle(msg, trace);
                let name = (
                    msg.id.host@,
                    CudaStream { device: event.device, id: event.stream },
                );
                &&& event_added(s.core, n.core, name, seq![], None, msg.curr_time)
                &&& n.events == s.events.insert(
                    (msg.id.host@, event),
                    n.core.streams[name].events.last(),
                )
                &&& rest_kept(s, n)
                &&& n.task == s.task
                &&& n.cuda == s.cuda
            },
            _ => false,
        },
{
    if let CudaCall::CudaEventRecord(event) = msg.call {
        let name = (msg.id.host@, CudaStream { device: event.device, id: event.stream });
        law_event_added(s.core, name, seq![], None, msg.curr_time);
    }
}

/// Whether something is done for a call once the queue has been run up to its time.
pub open spec fn done_at(s: SimView, n: SimView, time: i64, next: Next) -> bool {
    &&& n.task == (Task::Peek { until: time, next })
    &&& rest_kept(s, n)
    &&& n.events == s.events
    &&& n.cuda == s.cuda
    &&& n.clock.syncing == s.clock.syncing
    &&& n.clock.replies == s.clock.replies
}

/// Threads that wait for or poll an event are answered for the event that was last
/// recorded under its name, and ranks that form or split a communicator take part with
/// what they asked for, once the queue has been run up to the time of the call.
pub proof fn law_answered_at_their_time(s: SimView, msg: CudaCallMsg, trace: Seq<Flow>)
    ensures
        match msg.call {
            CudaCall::CudaEventSynchronize(event) => {
                let next = Next::EventSync {
                    host: msg.id,
                    event: s.events[(msg.id.host@, event)],
                };
                &&& done_at(s, s.handle(msg, trace), msg.curr_time, next)
                &&& s.handle(msg, trace).core == s.core
            },
            CudaCall::CudaEventQuery(event) => {
                let next = Next::EventQuery {
                    host: msg.id,
                    event: s.events[(msg.id.host@, event)],
                };
                &&& done_at(s, s.handle(msg, trace), msg.curr_time, next)
                &&& s.handle(msg, trace).core == s.core
            },
            CudaCall::NcclCommInitRank { device, rank, nranks, id } => {
                let next = Next::InitRank { host: msg.id, device, rank, nranks, id };
                &&& done_at(s, s.handle(msg, trace), msg.curr_time, next)
                &&& s.handle(msg, trace).core == s.core
            },
            CudaCall::NcclCommSplit { comm, color, key } => {
                let next = Next::CommSplit {
                    host: msg.id,
                    rank: comm.rank,
                    id: comm.id,
                    color,
                    key,
                };
                &&& done_at(s, s.handle(msg, trace), msg.curr_time, next)
                &&& s.handle(msg, trace).core == s.core
            },
            _ => true,
        },
{
}

/// A thread that polls a stream is answered for the last event of the stream, behind all
/// that was buffered there.
pub proof fn law_stream_polled(s: SimView, msg: CudaCallMsg, trace: Seq<Flow>)
    requires
        msg.call is CudaStreamQuery,
        has_room(s.core, (msg.id.host@, msg.call->CudaStreamQuery_0)),
    ensures
        match msg.call {
            CudaCall::CudaStreamQuery(stream) => {
                let n = s.handle(msg, trace);
                let name = (msg.id.host@, stream);
                let events = n.core.stream(name).events;
                &&& done_at(
                    s,
                    n,
                    msg.curr_time,
                    Next::StreamQuery {
                        host: msg.id,
                        last_event: if events.len() > 0 {
                            Some(events.last())
                        } else {
                            None
                        },
                    },
                )
                &&& n.core.stream(name).buffered.len() == 0
                &&& s.core.streams.contains_key(name) ==> worked_off(
                    s.core,
                    name,
                    n.core.queue,
                    events,
                )
                &&& !s.core.streams.contains_key(name) ==> n.core == s.core
                &&& others_kept(s.core, n.core, name)
                &&& s.core.queue.len() <= n.core.queue.len()
                &&& forall|i: int|
                    0 <= i < s.core.queue.len() ==> #[trigger] n.core.queue[i] == s.core.queue[i]
            },
            _ => false,
        },
{
    if let CudaCall::CudaStreamQuery(stream) = msg.call {
        law_stream_worked_off(s.core, (msg.id.host@, stream));
    }
}

/// The clock of a process never stands before the time of a call that it made, and calls
/// move no other clock.
pub proof fn law_clock_reaches_call(s: SimView, msg: CudaCallMsg, trace: Seq<Flow>)
    ensures
        ({
            let host = msg.id.host@;
            let n = s.handle(msg, trace);
            &&& n.clock.times.contains_key(host)
            &&& n.clock.times[host].curr >= msg.curr_time
            &&& if s.clock.times.contains_key(host) {
                &&& n.clock.times[host].sync == s.clock.times[host].sync
                &&& n.clock.times[host].curr == msg.curr_time || n.clock.times[host].curr
                    == s.clock.times[host].curr
            } else {
                n.clock.times[host].curr == msg.curr_time
            }
            &&& forall|other: HostName|
                other != host ==> (#[trigger] n.clock.times.contains_key(other)
                    <==> s.clock.times.contains_key(other))
            &&& forall|other: HostName|
                other != host && s.clock.times.contains_key(other)
                    ==> #[trigger] n.clock.times[other] == s.clock.times[other]
        }),
{
    crate::simulator::lemma_handle_times(s, msg, trace);
}

/// A traced operator waits in the buffer of its stream, behind those that came before it,
/// with the time that is known for it; nothing becomes an event yet.
pub proof fn law_operator_buffered(s: SimView, call: TorchCall)
    requires
        s.core.times.compute.contains_key(call.info@) || s.core.times.replay,
    ensures
        ({
            let n = s.handle_torch(call);
            let name = (call.id.host@, call.stream);
            let calls = n.core.stream(name).buffered;
            &&& n.core.queue == s.core.queue
            &&& n.core.streams.contains_key(name)
            &&& n.core.stream(name).events == s.core.stream(name).events
            &&& calls.len() == s.core.stream(name).buffered.len() + 1
            &&& calls.drop_last() == s.core.stream(name).buffered
            &&& calls.last().0 == call
            &&& calls.last().1.nanos == if s.core.times.compute.contains_key(call.info@) {
                s.core.times.compute[call.info@].nanos
            } else {
                0
            }
            &&& forall|other: StreamName|
                other != name ==> #[trigger] n.core.stream(other) == s.core.stream(other)
            &&& noted(
                s.core.times.compute,
                s.core.times.missing,
                call.info@,
                n.core.times.compute,
                n.core.times.missing,
            )
            &&& n.core.times.sequence == s.core.times.sequence
            &&& n.core.times.replay == s.core.times.replay
            &&& seen_at(s.clock, n.clock, call.id.host@, call.time)
            &&& n.clock.syncing == s.clock.syncing
            &&& n.clock.replies == s.clock.replies
            &&& rest_kept(s, n)
            &&& n.cuda == s.cuda
            &&& n.events == s.events
            &&& n.task == s.task
        }),
{
    let n = s.handle_torch(call);
    let name = (call.id.host@, call.stream);
    assert(n.core.stream(name).buffered.drop_last() =~= s.core.stream(name).buffered);
}

/// Whether a process stands at a time, or later where it stood there already, and what it
/// last waited for is as given; all other clocks stay as they are.
pub open spec fn stands_at(
    before: ClockView,
    after: ClockView,
    host: HostName,
    time: i64,
    sync: SyncPoint,
) -> bool {
    &&& after.times.contains_key(host)
    &&& after.times[host].sync == sync
    &&& after.times[host].curr == if before.times.contains_key(host) && before.times[host].curr
        > time {
        before.times[host].curr
    } else {
        time
    }
    &&& forall|other: HostName|
        other != host ==> (#[trigger] after.times.contains_key(other)
            <==> before.times.contains_key(other))
    &&& forall|other: HostName|
        other != host && before.times.contains_key(other) ==> #[trigger] after.times[other]
            == before.times[other]
}

/// Whether a process was seen at a time: it stands there, or later where it stood there
/// already, and what it last waited for stays as it was; all other clocks stay as they
/// are.
pub open spec fn seen_at(before: ClockView, after: ClockView, host: HostName, time: i64) -> bool {
    stands_at(
        before,
        after,
        host,
        time,
        if before.times.contains_key(host) {
            before.times[host].sync
        } else {
            SyncPoint::Static(time)
        },
    )
}

/// Whether one answer was given, and to whom.
pub open spec fn answered(
    before: ClockView,
    after: ClockView,
    to: ResponseId,
    body: ReplyBody,
) -> bool {
    &&& after.replies.len() == before.replies.len() + 1
    &&& after.replies.drop_last() == before.replies
    &&& after.replies.last() == (Reply { to, body })
}

/// Whether nothing but the clocks and what is done next has changed.
pub open spec fn only_clocks(s: SimView, n: SimView) -> bool {
    &&& n.core == s.core
    &&& n.events == s.events
    &&& n.cuda == s.cuda
    &&& rest_kept(s, n)
}

/// What happens when an event ends: the thread that waits for it is told when, and waits no
/// longer; where nobody waits for it nothing happens.
pub open spec fn end_told(before: ClockView, after: ClockView, event: EventId, time: i64) -> bool {
    if before.syncing.contains_key(event) {
        let who = before.syncing[event];
        &&& answered(before, after, who, ReplyBody::Sync(SyncResponse { end_time: time }))
        &&& after.syncing == before.syncing.remove(event)
        &&& stands_at(before, after, who.host@, time, SyncPoint::EventEnd(event))
    } else {
        after == before
    }
}

/// Every end of an event that the queue reports is told to the thread that waits for it. The
/// queue is run until the event ends up to which it is to be run.
pub proof fn law_ends_are_told(s: SimView, step: QueueStep, id: EventId, time: i64)
    requires
        step == QueueStep::EventEnded(id, time) || step == QueueStep::ReachedPoint(id, time),
    ensures
        ({
            let n = s.resume(Answer::Step(step));
            match s.task {
                Task::RunTo { event } => {
                    &&& end_told(s.clock, n.clock, id, time)
                    &&& only_clocks(s, n)
                    &&& n.task == if id == event {
                        Task::Idle
                    } else {
                        s.task
                    }
                },
                Task::Advance { until, next } => {
                    &&& end_told(s.clock, n.clock, id, time)
                    &&& only_clocks(s, n)
                    &&& n.task == (Task::Peek { until, next })
                },
                _ => true,
            }
        }),
{
    let n = s.resume(Answer::Step(step));
    if s.clock.syncing.contains_key(id) {
        assert(s.clock.ended(id, time).replies.drop_last() =~= s.clock.replies);
    }
}

/// The start of an event changes nothing; a queue with nothing left is run no further.
pub proof fn law_starts_change_nothing(s: SimView, id: EventId, time: i64)
    ensures
        ({
            let n = s.resume(Answer::Step(QueueStep::EventStarted(id, time)));
            match s.task {
                Task::RunTo { event } => n == s,
                Task::Advance { until, next } => {
                    &&& only_clocks(s, n)
                    &&& n.clock == s.clock
                    &&& n.task == (Task::Peek { until, next })
                },
                _ => true,
            }
        }),
        s.task is RunTo ==> {
            let n = s.resume(Answer::Step(QueueStep::EmptyQueue));
            only_clocks(s, n) && n.clock == s.clock && n.task is Idle
        },
{
}

/// Something that is to be done at a time is done once no step of the queue before that time
/// is left, and until then the queue is run on.
pub proof fn law_done_at_its_time(s: SimView, until: i64, next: Next, t: i64)
    ensures
        s.task == (Task::Peek { until, next }) && t < until ==> {
            let n = s.resume(Answer::NextTime(Some(t)));
            only_clocks(s, n) && n.clock == s.clock && n.task == (Task::Advance { until, next })
        },
        s.task == (Task::Peek { until, next }) && t >= until ==> done(
            s,
            s.resume(Answer::NextTime(Some(t))),
            until,
            next,
        ),
        s.task == (Task::Peek { until, next }) ==> done(
            s,
            s.resume(Answer::NextTime(None)),
            until,
            next,
        ),
        s.task == (Task::Advance { until, next }) ==> done(
            s,
            s.resume(Answer::Step(QueueStep::EmptyQueue)),
            until,
            next,
        ),
{
    let n = s.reached(until, next);
    match next {
        Next::StreamQuery { host, last_event: None } => {
            assert(n.clock.replies.drop_last() =~= s.clock.replies);
        },
        _ => {},
    }
}

/// What is done for a call at its time: a thread that waits for or polls an event has the
/// queue asked about it, one that polls a stream without any event is told at once that it
/// is done, and a rank takes part in forming or splitting a communicator.
pub open spec fn done(s: SimView, n: SimView, time: i64, next: Next) -> bool {
    match next {
        Next::EventSync { host, event } => {
            &&& only_clocks(s, n)
            &&& n.clock == s.clock
            &&& n.task == (Task::Ask { event, host, curr_time: time, blocking: true })
        },
        Next::EventQuery { host, event } => {
            &&& only_clocks(s, n)
            &&& n.clock == s.clock
            &&& n.task == (Task::Ask { event, host, curr_time: time, blocking: false })
        },
        Next::StreamQuery { host, last_event: Some(event) } => {
            &&& only_clocks(s, n)
            &&& n.clock == s.clock
            &&& n.task == (Task::Ask { event, host, curr_time: time, blocking: false })
        },
        Next::StreamQuery { host, last_event: None } => {
            &&& only_clocks(s, n)
            &&& answered(s.clock, n.clock, host, ReplyBody::Query(Some(time)))
            &&& stands_at(s.clock, n.clock, host.host@, time, SyncPoint::Static(time))
            &&& n.clock.syncing == s.clock.syncing
            &&& n.task is Idle
        },
        Next::InitRank { host, device, rank, nranks, id } => {
            let after = (CommState { comms: s.comms, clock: s.clock }).init_rank(
                host,
                time,
                device,
                rank,
                nranks,
                id@,
            );
            &&& n.comms == after.comms
            &&& n.clock == after.clock
            &&& n == (SimView { comms: n.comms, clock: n.clock, task: Task::Idle, ..s })
        },
        Next::CommSplit { host, rank, id, color, key } => {
            let after = (CommState { comms: s.comms, clock: s.clock }).split(
                host,
                time,
                rank,
                id@,
                color,
                key,
            );
            &&& n.comms == after.comms
            &&& n.clock == after.clock
            &&& n == (SimView { comms: n.comms, clock: n.clock, task: Task::Idle, ..s })
        },
    }
}

/// A thread that asks about an event that has ended is told when it did. One that waits for
/// an event that has not ended is kept waiting, and the queue is run up to the event; one
/// that polls it is told that it has not.
pub proof fn law_asked_about_event(
    s: SimView,
    event: EventId,
    host: ResponseId,
    curr_time: i64,
    blocking: bool,
    time: i64,
)
    requires
        s.task == (Task::Ask { event, host, curr_time, blocking }),
    ensures
        ({
            let n = s.resume(Answer::Completed(Some(time)));
            &&& only_clocks(s, n)
            &&& n.task is Idle
            &&& n.clock.syncing == s.clock.syncing
            &&& answered(
                s.clock,
                n.clock,
                host,
                if blocking {
                    ReplyBody::Sync(SyncResponse { end_time: time })
                } else {
                    ReplyBody::Query(Some(time))
                },
            )
            &&& stands_at(s.clock, n.clock, host.host@, time, SyncPoint::EventEnd(event))
        }),
        ({
            let n = s.resume(Answer::Completed(None));
            &&& only_clocks(s, n)
            &&& if blocking {
                waits_for(s, n, host, event) && n.clock.times == s.clock.times
            } else {
                &&& n.task is Idle
                &&& n.clock.syncing == s.clock.syncing
                &&& answered(s.clock, n.clock, host, ReplyBody::Query(None))
                &&& seen_at(s.clock, n.clock, host.host@, curr_time)
            }
        }),
{
    let a = s.resume(Answer::Completed(Some(time)));
    let b = s.resume(Answer::Completed(None));
    assert(a.clock.replies.drop_last() =~= s.clock.replies);
    if !blocking {
        assert(b.clock.replies.drop_last() =~= s.clock.replies);
    }
}

/// A process that asks for an identifier is told the next one, which is then given out; a
/// process that reads a timer is only seen.
pub proof fn law_identifier_given_out(s: SimView, msg: CudaCallMsg, trace: Seq<Flow>)
    ensures
        ({
            let n = s.handle(msg, trace);
            match msg.call {
                CudaCall::NcclGetUniqueId => {
                    &&& answered(s.clock, n.clock, msg.id, ReplyBody::UniqueId(s.comms.next))
                    &&& n.comms.groups == s.comms.groups
                    &&& n.comms.init == s.comms.init
                    &&& n.comms.split == s.comms.split
                    &&& id_number(n.comms.next@) == (id_number(s.comms.next@) + 1) % id_count()
                    &&& n.core == s.core
                    &&& n.task == s.task
                    &&& n.clock.syncing == s.clock.syncing
                    &&& n.cuda == s.cuda
                    &&& n.events == s.events
                    &&& n.exited == s.exited
                    &&& n.collectives == s.collectives
                    &&& n.p2p == s.p2p
                },
                CudaCall::ReadTimer(_) => {
                    &&& only_clocks(s, n)
                    &&& n.task == s.task
                    &&& n.clock.syncing == s.clock.syncing
                    &&& n.clock.replies == s.clock.replies
                },
                _ => true,
            }
        }),
{
    let n = s.handle(msg, trace);
    if msg.call is NcclGetUniqueId {
        assert(n.clock.replies.drop_last() =~= s.clock.replies);
        lemma_next_number(s.comms.next);
    }
}

/// A rank that joins a communicator that is being formed is kept with its device, and is no
/// longer waited for. The first one has it wait for all other ranks. While some rank is
/// waited for nobody is told anything and the communicator is not there.
pub proof fn law_communicator_waits_for_all(
    state: CommState,
    host: ResponseId,
    time: i64,
    device: i32,
    rank: i32,
    nranks: i32,
    id: Seq<u8>,
)
    ensures
        ({
            let after = state.init_rank(host, time, device, rank, nranks, id);
            let old = state.comms.init[id];
            let new = after.comms.init[id];
            &&& if !state.comms.init.contains_key(id) {
                &&& after.comms.init.contains_key(id)
                &&& new.joined == Map::<i32, InitMember>::empty().insert(
                    rank,
                    InitMember { host, device },
                )
                &&& forall|r: i32| #[trigger]
                    new.waiting_for.contains(r) <==> 0 <= r < nranks && r != rank
                &&& after.clock == state.clock
                &&& after.comms.groups == state.comms.groups
            } else if exists|r: i32| #[trigger] old.waiting_for.contains(r) && r != rank {
                &&& after.comms.init.contains_key(id)
                &&& new.joined == old.joined.insert(rank, InitMember { host, device })
                &&& new.waiting_for == old.waiting_for.remove(rank)
                &&& after.clock == state.clock
                &&& after.comms.groups == state.comms.groups
            } else {
                &&& !after.comms.init.contains_key(id)
                &&& after.comms.groups.contains_key(id)
                &&& after.comms.groups[id].len() == if nranks < 0 {
                    0
                } else {
                    nranks as int
                }
                &&& forall|r: int|
                    0 <= r < nranks ==> #[trigger] after.comms.groups[id][r] == if r == rank {
                        (host.host, device)
                    } else {
                        (old.joined[r as i32].host.host, old.joined[r as i32].device)
                    }
                &&& forall|other: Seq<u8>|
                    other != id ==> (#[trigger] after.comms.groups.contains_key(other)
                        <==> state.comms.groups.contains_key(other))
            }
            &&& after.comms.split == state.comms.split
            &&& after.comms.next == state.comms.next
        }),
{
    if state.comms.init.contains_key(id) {
        let old = state.comms.init[id];
        let new = old.with_rank(rank, InitMember { host, device });
        if new.waiting_for =~= Set::empty() {
            assert forall|r: i32| #[trigger] old.waiting_for.contains(r) implies r == rank by {
                if r != rank {
                    assert(new.waiting_for.contains(r));
                }
            }
        } else {
            if forall|r: i32| !(#[trigger] old.waiting_for.contains(r) && r != rank) {
                assert(new.waiting_for =~= Set::empty());
            }
        }
    }
}

/// Whether a call has a process of the machine wait for an event.
pub open spec fn makes_wait(call: CudaCall) -> bool {
    call is CudaStreamSynchronize || call is CudaDeviceSynchronize
}

/// Whether something is done for a call once the queue has been run up to its time.
pub open spec fn done_later(call: CudaCall) -> bool {
    ||| call is CudaStreamQuery
    ||| call is CudaEventSynchronize
    ||| call is CudaEventQuery
    ||| call is NcclCommInitRank
    ||| call is NcclCommSplit
}

/// A call changes nothing but what it is for. Only a request for an identifier is answered
/// at once and takes an identifier; only those that synchronize have a thread wait; only
/// copies and kernels ask for their times; only recording an event gives a name to one;
/// only collectives and only sends and receives change what waits for peers; and no call
/// says that a process has ended.
pub proof fn law_calls_change_nothing_else(s: SimView, msg: CudaCallMsg, trace: Seq<Flow>)
    ensures
        ({
            let n = s.handle(msg, trace);
            let call = msg.call;
            &&& n.exited == s.exited
            &&& !(call is NcclGetUniqueId) ==> n.comms == s.comms && n.clock.replies
                == s.clock.replies
            &&& !makes_wait(call) ==> n.clock.syncing == s.clock.syncing
            &&& !makes_wait(call) && !done_later(call) ==> n.task == s.task
            &&& !(call is CudaMemcpyAsync || call is FlashAttnCall) ==> n.cuda == s.cuda
            &&& !(call is CudaEventRecord) ==> n.events == s.events
            &&& !(call is NcclBcast || call is NcclAllReduce || call is NcclAllGather
                || call is NcclReduceScatter) ==> n.collectives == s.collectives
            &&& !(call is NcclSend || call is NcclRecv || call is NcclP2pGroup) ==> n.p2p == s.p2p
        }),
{
}

/// At first nothing is enqueued, waited for or known but the times that were given, no
/// communicator is there, and the identifier that is given out first is all zero.
pub proof fn law_starts_empty(cuda: CudaTimes, times: TorchTimes, single: bool, i: int)
    requires
        0 <= i < 128,
    ensures
        ({
            let s = SimView::initial(cuda, times, single);
            &&& s.cuda == cuda
            &&& s.core.times == times
            &&& s.core.single == single
            &&& s.core.queue.len() == 0
            &&& s.core.order.len() == 0
            &&& forall|name: StreamName| !#[trigger] s.core.streams.contains_key(name)
            &&& s.events == Map::<(HostName, CudaEvent), EventId>::empty()
            &&& s.clock.times == Map::<HostName, HostTime>::empty()
            &&& s.clock.syncing == Map::<EventId, ResponseId>::empty()
            &&& s.clock.replies.len() == 0
            &&& s.exited == Map::<HostName, i64>::empty()
            &&& forall|id: Seq<u8>| !#[trigger] s.comms.groups.contains_key(id)
            &&& forall|id: Seq<u8>| !#[trigger] s.comms.init.contains_key(id)
            &&& forall|id: Seq<u8>| !#[trigger] s.comms.split.contains_key(id)
            &&& s.comms.next@[i] == 0
            &&& s.task is Idle
        }),
{
}

/// A simulation that runs the queue up to a time asks for the time of its next step and
/// then has the step taken; one that runs it up to an event has steps taken; one that asks
/// about an event asks about that one; and nothing is asked otherwise. Each request takes
/// the answer to it, and no other.
pub proof fn law_what_is_asked(task: Task, answer: Answer)
    ensures
        task.asks() is Done <==> task is Idle,
        task.asks() is PeekNextTime <==> task is Peek,
        task.asks() is Execute <==> task is Advance || task is RunTo,
        task matches Task::Ask { event, .. } ==> task.asks() == Request::Query(event),
        task.asks().takes(answer) <==> {
            ||| task is Peek && answer is NextTime
            ||| (task is Advance || task is RunTo) && answer is Step
            ||| task is Ask && answer is Completed
        },
{
}

} // verus!
