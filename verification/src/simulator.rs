//! The simulation of a GPU cluster.
//!
//! Traced processes report the calls they make. Each call becomes events on CUDA
//! streams, transfers between hosts, or an answer to a thread that waits. The event
//! graph is run by a queue outside; the simulation tells what it needs of it and
//! goes on with what comes back.

pub mod call_laws;
pub mod check_laws;
pub mod collective_laws;
pub mod collectives;
pub mod comm_laws;
pub mod comms;
pub mod graph;
pub mod hosts;
pub mod listings;
pub mod member_laws;
pub mod p2p;
pub mod p2p_laws;
pub mod ranks;
pub mod stream_laws;
pub mod streams;
pub mod task;
pub mod trace;
pub mod trace_laws;

use crate::cuda_call::{
    CudaCall, CudaCallMsg, CudaEvent, CudaMemcpyKind, CudaStream, HostId, NcclComm, ResponseId,
};
use crate::cuda_estimate::{CudaEstimator, CudaTimes};
use crate::event_queue::{
    point, Action, ComputeMeta, EventId, EventQueue, Flow, NodeId, QueueStep,
};
use crate::lines::texts;
use crate::nccl_id::{filled_id, NcclId};
use crate::perf_db::FlashAttnKey;
use crate::simulator::collectives::{
    CollectiveState, Collectives, CollectivesView, NcclCollectiveSignature, Participant,
};
use crate::simulator::comms::{law_comms_step_forward, CommState, Comms, CommsView};
use crate::simulator::hosts::{
    lemma_ended_clock, lemma_seen_forward, ClockView, HostClock, HostName, HostTime, Reply,
};
use crate::simulator::p2p::{
    bytes_fit, calls_fit, collect_p2p, key_of, law_p2p_settled, p2p_calls, p2p_key, streams_ready,
    P2PCallInfo, P2PCallKind, P2PMatcher, P2PState, P2PView,
};
use crate::simulator::streams::{
    last_event, lemma_check, lemma_check_all, CheckView, CoreView, RunCheck, StreamCore, StreamKey,
    StreamName,
};
use crate::simulator::task::{Answer, Next, Request, Task};
use crate::simulator::trace::{event_lines, event_texts};
use crate::table::{MapKey, Table};
use crate::torch_call::{info_views, CallView, TorchCall, TorchCallInfo};
use crate::torch_estimate::{TorchEstimator, TorchTimes};
use vstd::prelude::*;

verus! {

/// A CUDA event of a traced process.
#[derive(Debug, PartialEq, Eq, Hash)]
pub struct EventKey {
    pub host: HostId,
    pub event: CudaEvent,
}

/// What an [`EventKey`] stands for.
pub type EventName = (HostName, CudaEvent);

impl View for EventKey {
    type V = EventName;

    open spec fn view(&self) -> EventName {
        (self.host@, self.event)
    }
}

impl MapKey for EventKey {
    fn same_key(&self, other: &Self) -> (b: bool) {
        self.event == other.event && self.host.same_key(&other.host)
    }
}

/// A simulation.
pub struct Simulator {
    cuda_estimator: CudaEstimator,
    core: StreamCore,
    id_of_cuda: Table<EventKey, EventId>,
    clock: HostClock,
    exited_hosts: Table<HostId, i64>,
    comms: Comms,
    collectives: Collectives,
    p2p: P2PMatcher,
    task: Task,
}

/// What a [`Simulator`] stands for.
#[verifier::ext_equal]
pub struct SimView {
    /// What is known of the times of copies and kernels.
    pub cuda: CudaTimes,
    /// The streams, and the operations issued to the queue.
    pub core: CoreView,
    /// The event that last recorded each CUDA event.
    pub events: Map<EventName, EventId>,
    /// The clocks of the processes, and the answers to their threads.
    pub clock: ClockView,
    /// When processes exited.
    pub exited: Map<HostName, i64>,
    /// The communicators.
    pub comms: CommsView,
    /// The collectives that wait for ranks.
    pub collectives: CollectivesView,
    /// The sends and receives that wait for their peers.
    pub p2p: P2PView,
    /// What the simulation is at.
    pub task: Task,
}

impl View for Simulator {
    type V = SimView;

    closed spec fn view(&self) -> SimView {
        SimView {
            cuda: self.cuda_estimator@,
            core: self.core@,
            events: self.id_of_cuda@,
            clock: self.clock@,
            exited: self.exited_hosts@,
            comms: self.comms@,
            collectives: self.collectives@,
            p2p: self.p2p@,
            task: self.task,
        }
    }
}

/// Why a call cannot be handled.
#[derive(Clone, Copy, Debug, PartialEq, Eq, Structural)]
pub enum Refusal {
    /// A run of traced calls has fewer recorded times than calls.
    ShortRun,
    /// A CUDA event was never recorded.
    UnknownEvent,
    /// A communicator was never formed.
    UnknownCommunicator,
    /// A communicator would be formed without all of its ranks.
    MissingRanks,
    /// The size of a buffer is no machine number.
    TooLarge,
    /// A communicator has begun as many collectives as can be counted.
    TooMany,
}

/// What a call needs before it can be handled.
pub enum CallCheck {
    /// Nothing.
    Ready,
    /// The times of a run of traced calls.
    MeasureRun(Vec<TorchCallInfo>),
    /// The time of a copy.
    MeasureMemcpy(CudaMemcpyKind, usize),
    /// The time of a flash-attention kernel.
    MeasureFlashAttn(FlashAttnKey),
    /// It cannot be handled.
    Refused(Refusal),
}

/// What a [`CallCheck`] stands for.
#[verifier::ext_equal]
pub enum NeedView {
    Ready,
    MeasureRun(Seq<CallView>),
    MeasureMemcpy(CudaMemcpyKind, usize),
    MeasureFlashAttn(FlashAttnKey),
    Refused(Refusal),
}

impl View for CallCheck {
    type V = NeedView;

    open spec fn view(&self) -> NeedView {
        match *self {
            CallCheck::Ready => NeedView::Ready,
            CallCheck::MeasureRun(calls) => NeedView::MeasureRun(info_views(calls@)),
            CallCheck::MeasureMemcpy(kind, size) => NeedView::MeasureMemcpy(kind, size),
            CallCheck::MeasureFlashAttn(key) => NeedView::MeasureFlashAttn(key),
            CallCheck::Refused(why) => NeedView::Refused(why),
        }
    }
}

/// What a stream that is not ready needs.
pub open spec fn run_need(check: CheckView) -> NeedView {
    match check {
        CheckView::Ready => NeedView::Ready,
        CheckView::Measure(calls) => NeedView::MeasureRun(calls),
        CheckView::Short => NeedView::Refused(Refusal::ShortRun),
    }
}

/// What is needed where a condition has to hold besides something else.
pub open spec fn need_if(holds: bool, why: Refusal, rest: NeedView) -> NeedView {
    if holds {
        rest
    } else {
        NeedView::Refused(why)
    }
}

/// The sizes that a flash-attention call asks for.
pub open spec fn flash_key(call: CudaCall) -> FlashAttnKey {
    match call {
        CudaCall::FlashAttnCall {
            stream,
            is_fwd,
            is_bf16,
            batch_size,
            seqlen_q,
            seqlen_k,
            num_heads,
            num_heads_k,
            head_size,
            window_size_left,
            window_size_right,
            is_causal,
        } => FlashAttnKey {
            is_fwd,
            is_bf16,
            batch_size,
            seqlen_q,
            seqlen_k,
            num_heads,
            num_heads_k,
            head_size,
            window_size_left,
            window_size_right,
            is_causal,
        },
        _ => arbitrary(),
    }
}

/// The stream on which a CUDA event is recorded.
pub open spec fn event_stream(event: CudaEvent) -> CudaStream {
    CudaStream { device: event.device, id: event.stream }
}

/// The streams of some sends and receives of a process.
pub open spec fn p2p_names(host: HostName, calls: Seq<P2PCallInfo>) -> Seq<StreamName> {
    calls.map_values(|c: P2PCallInfo| (host, c.stream))
}

impl SimView {
    /// A simulation in which nothing has happened.
    pub open spec fn initial(cuda: CudaTimes, times: TorchTimes, single: bool) -> SimView {
        SimView {
            cuda,
            core: CoreView {
                times,
                queue: seq![],
                streams: Map::empty(),
                order: seq![],
                single,
            },
            events: Map::empty(),
            clock: ClockView { times: Map::empty(), syncing: Map::empty(), replies: seq![] },
            exited: Map::empty(),
            comms: CommsView {
                groups: Map::empty(),
                init: Map::empty(),
                split: Map::empty(),
                next: filled_id(0),
            },
            collectives: CollectivesView { waiting: Map::empty(), begun: Map::empty() },
            p2p: P2PView { send: Map::empty(), recv: Map::empty() },
            task: Task::Idle,
        }
    }

    /// What a stream needs before its buffered calls can be turned into events.
    pub open spec fn stream_need(self, host: HostName, stream: CudaStream) -> NeedView {
        run_need(self.core.check((host, stream)))
    }

    /// What a collective needs before a rank can take part.
    pub open spec fn collective_need(
        self,
        host: HostName,
        comm: NcclComm,
        stream: CudaStream,
    ) -> NeedView {
        need_if(
            self.comms.groups.contains_key(comm.id@),
            Refusal::UnknownCommunicator,
            need_if(
                self.collectives.sequence(comm.id@) < u64::MAX,
                Refusal::TooMany,
                self.stream_need(host, stream),
            ),
        )
    }

    /// What a call needs before it can be handled.
    pub open spec fn need(self, msg: CudaCallMsg) -> NeedView {
        let host = msg.id.host@;
        match msg.call {
            CudaCall::CudaMemcpyAsync { size, kind, stream } => {
                if self.cuda.memcpy_answer(kind, size) is None {
                    NeedView::MeasureMemcpy(kind, size)
                } else {
                    self.stream_need(host, stream)
                }
            },
            CudaCall::CudaDeviceSynchronize(device) => run_need(
                self.core.check_all(self.core.device_streams(host, device), 0),
            ),
            CudaCall::CudaStreamSynchronize(stream) => self.stream_need(host, stream),
            CudaCall::CudaStreamWaitEvent { stream, event } => need_if(
                self.events.contains_key((host, event)),
                Refusal::UnknownEvent,
                self.stream_need(host, stream),
            ),
            CudaCall::CudaStreamQuery(stream) => self.stream_need(host, stream),
            CudaCall::CudaEventRecord(event) => self.stream_need(host, event_stream(event)),
            CudaCall::CudaEventSynchronize(event) => need_if(
                self.events.contains_key((host, event)),
                Refusal::UnknownEvent,
                NeedView::Ready,
            ),
            CudaCall::CudaEventQuery(event) => need_if(
                self.events.contains_key((host, event)),
                Refusal::UnknownEvent,
                NeedView::Ready,
            ),
            CudaCall::CudaAddLatency(stream, _) => self.stream_need(host, stream),
            CudaCall::FlashAttnCall { stream, .. } => {
                if self.cuda.flash_answer(flash_key(msg.call)) is None {
                    NeedView::MeasureFlashAttn(flash_key(msg.call))
                } else {
                    self.stream_need(host, stream)
                }
            },
            CudaCall::NcclGetUniqueId => NeedView::Ready,
            CudaCall::NcclCommInitRank { device, rank, nranks, id } => need_if(
                self.comms.can_init(rank, nranks, id@),
                Refusal::MissingRanks,
                NeedView::Ready,
            ),
            CudaCall::NcclCommSplit { .. } => NeedView::Ready,
            CudaCall::NcclBcast { comm, stream, .. } => self.collective_need(host, comm, stream),
            CudaCall::NcclAllReduce { comm, stream, .. } => {
                self.collective_need(host, comm, stream)
            },
            CudaCall::NcclAllGather { comm, stream, .. } => {
                self.collective_need(host, comm, stream)
            },
            CudaCall::NcclReduceScatter { comm, stream, .. } => {
                self.collective_need(host, comm, stream)
            },
            CudaCall::NcclSend { count, dtype, stream, .. } => need_if(
                bytes_fit(count, dtype),
                Refusal::TooLarge,
                self.stream_need(host, stream),
            ),
            CudaCall::NcclRecv { count, dtype, stream, .. } => need_if(
                bytes_fit(count, dtype),
                Refusal::TooLarge,
                self.stream_need(host, stream),
            ),
            CudaCall::NcclP2pGroup { calls } => need_if(
                calls_fit(p2p_calls(calls@)),
                Refusal::TooLarge,
                run_need(self.core.check_all(p2p_names(host, p2p_calls(calls@)), 0)),
            ),
            CudaCall::ReadTimer(_) => NeedView::Ready,
        }
    }

    /// What always holds: the sizes of waiting buffers are machine numbers, no key
    /// has both a send and a receive that wait, and a communicator that is about
    /// to be formed can be.
    pub open spec fn well_formed(self) -> bool {
        &&& self.p2p.sizes_fit()
        &&& self.p2p.settled()
        &&& match self.task {
            Task::Peek { next, .. } => self.can_do(next),
            Task::Advance { next, .. } => self.can_do(next),
            _ => true,
        }
    }

    /// Whether the communicators allow what is done next.
    pub open spec fn can_do(self, next: Next) -> bool {
        match next {
            Next::InitRank { host, device, rank, nranks, id } => self.comms.can_init(
                rank,
                nranks,
                id@,
            ),
            _ => true,
        }
    }

    /// After a process was seen at a time.
    pub open spec fn seen(self, host: HostName, time: i64) -> SimView {
        SimView { clock: self.clock.seen(host, time), ..self }
    }

    /// With an event added to a stream.
    pub open spec fn event(
        self,
        name: StreamName,
        depends_on: Seq<Option<EventId>>,
        action: Option<Action>,
        time: i64,
    ) -> SimView {
        SimView { core: self.core.event(name, depends_on, action, time), ..self }
    }

    /// With a computation added to a stream.
    pub open spec fn compute(
        self,
        host: HostId,
        stream: CudaStream,
        micros: i64,
        call: CudaCall,
        time: i64,
    ) -> SimView {
        self.event(
            (host@, stream),
            seq![],
            Some(Action::Computation(NodeId(host), micros, ComputeMeta::Cuda(call))),
            time,
        )
    }

    /// With a thread that waits for an event, up to which the queue is run.
    pub open spec fn wait(self, event: EventId, host: ResponseId) -> SimView {
        SimView {
            clock: self.clock.wait(event, host),
            task: Task::RunTo { event },
            ..self
        }
    }

    /// With something to be done once the queue has been run up to a time.
    pub open spec fn at(self, until: i64, next: Next) -> SimView {
        SimView { task: Task::Peek { until, next }, ..self }
    }

    /// After a rank took part in a collective.
    pub open spec fn collective(
        self,
        host: HostId,
        time: i64,
        signature: NcclCollectiveSignature,
        comm: NcclComm,
        stream: CudaStream,
        trace: Seq<Flow>,
    ) -> SimView {
        let after = (CollectiveState {
            core: self.core,
            collectives: self.collectives,
        }).take_part(
            Participant { host, stream, comm, curr_time: time, signature },
            self.comms.groups[comm.id@].len() as i32,
            trace,
        );
        SimView { core: after.core, collectives: after.collectives, ..self }
    }

    /// After a send or receive outside any group.
    pub open spec fn send_or_receive(self, host: HostId, time: i64, call: P2PCallInfo) -> SimView {
        let after = (P2PState { core: self.core, p2p: self.p2p }).ungrouped(host, time, call);
        SimView { core: after.core, p2p: after.p2p, ..self }
    }

    /// After a call was handled. `trace` holds the transfers of a collective.
    pub open spec fn handle(self, msg: CudaCallMsg, trace: Seq<Flow>) -> SimView {
        let who = msg.id;
        let host = who.host;
        let t = msg.curr_time;
        let s = self.seen(host@, t);
        match msg.call {
            CudaCall::CudaMemcpyAsync { size, kind, stream } => {
                let dur = s.cuda.memcpy_answer(kind, size)->0;
                (SimView { cuda: s.cuda.memcpy_asked(kind, size), ..s }).compute(
                    host,
                    stream,
                    dur.micros(),
                    msg.call,
                    t,
                )
            },
            CudaCall::CudaDeviceSynchronize(device) => {
                let names = s.core.device_streams(host@, device);
                let clear = s.core.flush_all(names);
                (SimView {
                    core: clear.op(point(s.core.last_events(names), t)),
                    ..s
                }).wait(clear.next(), who)
            },
            CudaCall::CudaStreamSynchronize(stream) => {
                let name = (host@, stream);
                s.event(name, seq![], None, t).wait(s.core.event_id(name), who)
            },
            CudaCall::CudaStreamWaitEvent { stream, event } => s.event(
                (host@, stream),
                seq![Some(s.events[(host@, event)])],
                None,
                t,
            ),
            CudaCall::CudaStreamQuery(stream) => {
                let name = (host@, stream);
                let clear = if s.core.streams.contains_key(name) {
                    s.core.flush(name)
                } else {
                    s.core
                };
                (SimView { core: clear, ..s }).at(
                    t,
                    Next::StreamQuery {
                        host: who,
                        last_event: last_event(clear.stream(name).events),
                    },
                )
            },
            CudaCall::CudaEventRecord(event) => {
                let name = (host@, event_stream(event));
                SimView {
                    events: s.events.insert((host@, event), s.core.event_id(name)),
                    ..s.event(name, seq![], None, t)
                }
            },
            CudaCall::CudaEventSynchronize(event) => s.at(
                t,
                Next::EventSync { host: who, event: s.events[(host@, event)] },
            ),
            CudaCall::CudaEventQuery(event) => s.at(
                t,
                Next::EventQuery { host: who, event: s.events[(host@, event)] },
            ),
            CudaCall::CudaAddLatency(stream, latency) => s.compute(
                host,
                stream,
                latency,
                msg.call,
                t,
            ),
            CudaCall::FlashAttnCall { stream, .. } => {
                let key = flash_key(msg.call);
                let dur = s.cuda.flash_answer(key)->0;
                (SimView { cuda: s.cuda.flash_asked(key), ..s }).compute(
                    host,
                    stream,
                    dur.micros(),
                    msg.call,
                    t,
                )
            },
            CudaCall::NcclGetUniqueId => {
                let after = (CommState { comms: s.comms, clock: s.clock }).unique_id(who);
                SimView { comms: after.comms, clock: after.clock, ..s }
            },
            CudaCall::NcclCommInitRank { device, rank, nranks, id } => s.at(
                t,
                Next::InitRank { host: who, device, rank, nranks, id },
            ),
            CudaCall::NcclCommSplit { comm, color, key } => s.at(
                t,
                Next::CommSplit { host: who, rank: comm.rank, id: comm.id, color, key },
            ),
            CudaCall::NcclBcast { count, dtype, root, comm, stream } => s.collective(
                host,
                t,
                NcclCollectiveSignature::Bcast { count, dtype, root },
                comm,
                stream,
                trace,
            ),
            CudaCall::NcclAllReduce { count, dtype, op, comm, stream } => s.collective(
                host,
                t,
                NcclCollectiveSignature::AllReduce { count, dtype, op },
                comm,
                stream,
                trace,
            ),
            CudaCall::NcclAllGather { count, dtype, comm, stream } => s.collective(
                host,
                t,
                NcclCollectiveSignature::AllGather { count, dtype },
                comm,
                stream,
                trace,
            ),
            CudaCall::NcclReduceScatter { count, dtype, op, comm, stream } => s.collective(
                host,
                t,
                NcclCollectiveSignature::ReduceScatter { count, dtype, op },
                comm,
                stream,
                trace,
            ),
            CudaCall::NcclSend { count, dtype, peer, comm, stream } => s.send_or_receive(
                host,
                t,
                P2PCallInfo {
                    kind: P2PCallKind::Send,
                    key: key_of(P2PCallKind::Send, comm, peer),
                    stream,
                    count,
                    dtype,
                },
            ),
            CudaCall::NcclRecv { count, dtype, peer, comm, stream } => s.send_or_receive(
                host,
                t,
                P2PCallInfo {
                    kind: P2PCallKind::Recv,
                    key: key_of(P2PCallKind::Recv, comm, peer),
                    stream,
                    count,
                    dtype,
                },
            ),
            CudaCall::NcclP2pGroup { calls } => {
                let after = (P2PState { core: s.core, p2p: s.p2p }).grouped(host, t, calls@);
                SimView { core: after.core, p2p: after.p2p, ..s }
            },
            CudaCall::ReadTimer(_) => s.seen(host@, t),
        }
    }

    /// After a traced operator call was handled.
    pub open spec fn handle_torch(self, call: TorchCall) -> SimView {
        let s = self.seen(call.id.host@, call.time);
        let dur = s.core.times.answer(call.info@)->0;
        SimView {
            core: (CoreView {
                times: s.core.times.asked(call.info@),
                ..s.core
            }).buffer((call.id.host@, call.stream), (call, dur)),
            ..s
        }
    }

    /// After an event of the queue ended.
    pub open spec fn ended(self, step: QueueStep) -> SimView {
        match step {
            QueueStep::EventEnded(id, time) => SimView { clock: self.clock.ended(id, time), ..self },
            QueueStep::ReachedPoint(id, time) => SimView {
                clock: self.clock.ended(id, time),
                ..self
            },
            _ => self,
        }
    }

    /// After the queue was run up to the time of what is done next.
    pub open spec fn reached(self, time: i64, next: Next) -> SimView {
        let s = SimView { task: Task::Idle, ..self };
        match next {
            Next::InitRank { host, device, rank, nranks, id } => {
                let after = (CommState { comms: s.comms, clock: s.clock }).init_rank(
                    host,
                    time,
                    device,
                    rank,
                    nranks,
                    id@,
                );
                SimView { comms: after.comms, clock: after.clock, ..s }
            },
            Next::CommSplit { host, rank, id, color, key } => {
                let after = (CommState { comms: s.comms, clock: s.clock }).split(
                    host,
                    time,
                    rank,
                    id@,
                    color,
                    key,
                );
                SimView { comms: after.comms, clock: after.clock, ..s }
            },
            Next::EventSync { host, event } => SimView {
                task: Task::Ask { event, host, curr_time: time, blocking: true },
                ..s
            },
            Next::EventQuery { host, event } => SimView {
                task: Task::Ask { event, host, curr_time: time, blocking: false },
                ..s
            },
            Next::StreamQuery { host, last_event } => match last_event {
                Some(event) => SimView {
                    task: Task::Ask { event, host, curr_time: time, blocking: false },
                    ..s
                },
                None => SimView {
                    clock: s.clock.query_reply(host, Some((time, None)), time),
                    ..s
                },
            },
        }
    }

    /// After the queue answered.
    pub open spec fn resume(self, answer: Answer) -> SimView {
        match (self.task, answer) {
            (Task::Peek { until, next }, Answer::NextTime(Some(t))) => if t >= until {
                self.reached(until, next)
            } else {
                SimView { task: Task::Advance { until, next }, ..self }
            },
            (Task::Peek { until, next }, Answer::NextTime(None)) => self.reached(until, next),
            (Task::Advance { until, next }, Answer::Step(QueueStep::EmptyQueue)) => self.reached(
                until,
                next,
            ),
            (Task::Advance { until, next }, Answer::Step(step)) => SimView {
                task: Task::Peek { until, next },
                ..self.ended(step)
            },
            (Task::RunTo { event: until }, Answer::Step(QueueStep::EmptyQueue)) => SimView {
                task: Task::Idle,
                ..self
            },
            (Task::RunTo { event: until }, Answer::Step(step)) => {
                let done = match step {
                    QueueStep::EventEnded(id, _) => id == until,
                    QueueStep::ReachedPoint(id, _) => id == until,
                    _ => false,
                };
                SimView {
                    task: if done {
                        Task::Idle
                    } else {
                        self.task
                    },
                    ..self.ended(step)
                }
            },
            (Task::Ask { event, host, curr_time, blocking }, Answer::Completed(completed)) => {
                let s = SimView { task: Task::Idle, ..self };
                match completed {
                    Some(time) => SimView {
                        clock: if blocking {
                            s.clock.sync_reply(host, time, Some(event))
                        } else {
                            s.clock.query_reply(host, Some((time, Some(event))), curr_time)
                        },
                        ..s
                    },
                    None => if blocking {
                        s.wait(event, host)
                    } else {
                        SimView { clock: s.clock.query_reply(host, None, curr_time), ..s }
                    },
                }
            },
            _ => self,
        }
    }
}

fn run_check(check: RunCheck) -> (r: CallCheck)
    ensures
        r@ == run_need(check@),
{
    match check {
        RunCheck::Ready => CallCheck::Ready,
        RunCheck::Measure(calls) => CallCheck::MeasureRun(calls),
        RunCheck::Short => CallCheck::Refused(Refusal::ShortRun),
    }
}

fn fits(call: &P2PCallInfo) -> (b: bool)
    ensures
        b == bytes_fit(call.count, call.dtype),
{
    let size = call.dtype.size();
    match call.count.checked_mul(size) {
        Some(_) => true,
        None => false,
    }
}

impl Simulator {
    /// A simulation in which nothing has happened. With `single` every traced call
    /// keeps its own time.
    pub fn new(
        cuda_estimator: CudaEstimator,
        torch_estimator: TorchEstimator,
        single: bool,
    ) -> (s: Simulator)
        ensures
            s@ == SimView::initial(cuda_estimator@, torch_estimator@, single),
            s@.well_formed(),
    {
        let s = Simulator {
            cuda_estimator,
            core: StreamCore::new(torch_estimator, single),
            id_of_cuda: Table::new(),
            clock: HostClock::new(),
            exited_hosts: Table::new(),
            comms: Comms::new(),
            collectives: Collectives::new(),
            p2p: P2PMatcher::new(),
            task: Task::Idle,
        };
        s
    }

    /// What the simulation needs of the queue.
    pub fn request(&self) -> (r: Request)
        ensures
            r == self@.task.asks(),
    {
        self.task.request()
    }

    /// The operations issued to the queue so far.
    pub fn queue(&self) -> (q: &EventQueue)
        ensures
            q@ == self@.core.queue,
    {
        self.core.queue()
    }

    /// Takes the answers given to threads since they were last taken.
    pub fn take_replies(&mut self) -> (r: Vec<Reply>)
        ensures
            r@ == old(self)@.clock.replies,
            final(self)@ == (SimView {
                clock: ClockView { replies: seq![], ..old(self)@.clock },
                ..old(self)@
            }),
    {
        self.clock.take_replies()
    }

    /// Where a process stands.
    pub fn host_time(&self, host: &HostId) -> (r: Option<HostTime>)
        ensures
            r == if self@.clock.times.contains_key(host@) {
                Some(self@.clock.times[host@])
            } else {
                None
            },
    {
        self.clock.host_time(host)
    }

    /// When a process exited.
    pub fn exit_time(&self, host: &HostId) -> (r: Option<i64>)
        ensures
            r == if self@.exited.contains_key(host@) {
                Some(self@.exited[host@])
            } else {
                None
            },
    {
        match self.exited_hosts.get(host) {
            Some(t) => Some(*t),
            None => None,
        }
    }

    /// The members of a communicator, by rank.
    pub fn comm_group(&self, id: &NcclId) -> (r: Option<&Vec<(HostId, i32)>>)
        ensures
            match r {
                Some(g) => self@.comms.groups.contains_key(id@) && g@ == self@.comms.groups[id@],
                None => !self@.comms.groups.contains_key(id@),
            },
    {
        self.comms.group(id)
    }

    /// The times of copies and kernels.
    pub fn cuda_estimator(&self) -> (e: &CudaEstimator)
        ensures
            e@ == self@.cuda,
    {
        &self.cuda_estimator
    }

    /// The times of copies and kernels, to add to.
    pub fn cuda_estimator_mut(&mut self) -> (e: &mut CudaEstimator)
        ensures
            e@ == old(self)@.cuda,
            final(self)@ == (SimView { cuda: final(e)@, ..old(self)@ }),
    {
        &mut self.cuda_estimator
    }

    /// The times of operators.
    pub fn torch_estimator(&self) -> (e: &TorchEstimator)
        ensures
            e@ == self@.core.times,
    {
        self.core.torch_estimator()
    }

    /// The times of operators, to add to.
    pub fn torch_estimator_mut(&mut self) -> (e: &mut TorchEstimator)
        ensures
            e@ == old(self)@.core.times,
            final(self)@ == (SimView {
                core: CoreView { times: final(e)@, ..old(self)@.core },
                ..old(self)@
            }),
    {
        self.core.torch_estimator_mut()
    }

    fn check_stream(&self, host: &HostId, stream: CudaStream) -> (r: CallCheck)
        ensures
            r@ == self@.stream_need(host@, stream),
    {
        run_check(self.core.check(&StreamKey { host: host.clone(), stream }))
    }

    fn check_collective(&self, host: &HostId, comm: &NcclComm, stream: CudaStream) -> (r: CallCheck)
        ensures
            r@ == self@.collective_need(host@, *comm, stream),
    {
        let id = NcclId(comm.id);
        if self.comms.group(&id).is_none() {
            return CallCheck::Refused(Refusal::UnknownCommunicator);
        }
        if self.collectives.sequence(&id) == u64::MAX {
            return CallCheck::Refused(Refusal::TooMany);
        }
        self.check_stream(host, stream)
    }

    fn check_event(&self, host: &HostId, event: CudaEvent) -> (r: CallCheck)
        ensures
            r@ == need_if(
                self@.events.contains_key((host@, event)),
                Refusal::UnknownEvent,
                NeedView::Ready,
            ),
    {
        if self.id_of_cuda.contains_key(&EventKey { host: host.clone(), event }) {
            CallCheck::Ready
        } else {
            CallCheck::Refused(Refusal::UnknownEvent)
        }
    }

    fn check_group(&self, host: &HostId, calls: &Vec<CudaCall>) -> (r: CallCheck)
        ensures
            r@ == need_if(
                calls_fit(p2p_calls(calls@)),
                Refusal::TooLarge,
                run_need(self@.core.check_all(p2p_names(host@, p2p_calls(calls@)), 0)),
            ),
    {
        let p2p = collect_p2p(calls);
        let mut i: usize = 0;
        while i < p2p.len()
            invariant
                i <= p2p@.len(),
                p2p@ == p2p_calls(calls@),
                forall|j: int| 0 <= j < i ==> bytes_fit((#[trigger] p2p@[j]).count, p2p@[j].dtype),
            decreases p2p@.len() - i,
        {
            if !fits(&p2p[i]) {
                assert(!bytes_fit(p2p@[i as int].count, p2p@[i as int].dtype));
                return CallCheck::Refused(Refusal::TooLarge);
            }
            i += 1;
        }
        let ghost names = p2p_names(host@, p2p@);
        let mut j: usize = 0;
        while j < p2p.len()
            invariant
                j <= p2p@.len(),
                p2p@ == p2p_calls(calls@),
                calls_fit(p2p@),
                names == p2p_names(host@, p2p@),
                self@.core.check_all(names, 0) == self@.core.check_all(names, j as int),
            decreases p2p@.len() - j,
        {
            let key = StreamKey { host: host.clone(), stream: p2p[j].stream };
            assert(names[j as int] == key@);
            match self.core.check(&key) {
                RunCheck::Ready => {},
                other => {
                    return run_check(other);
                },
            }
            j += 1;
        }
        CallCheck::Ready
    }

    /// What a call needs before it can be handled.
    pub fn check(&self, msg: &CudaCallMsg) -> (r: CallCheck)
        ensures
            r@ == self@.need(*msg),
    {
        let host = &msg.id.host;
        match &msg.call {
            CudaCall::CudaMemcpyAsync { size, kind, stream } => {
                if !self.cuda_estimator.has_memcpy(*kind, *size) {
                    return CallCheck::MeasureMemcpy(*kind, *size);
                }
                self.check_stream(host, *stream)
            },
            CudaCall::CudaDeviceSynchronize(device) => run_check(
                self.core.check_device(host, *device),
            ),
            CudaCall::CudaStreamSynchronize(stream) => self.check_stream(host, *stream),
            CudaCall::CudaStreamWaitEvent { stream, event } => {
                match self.check_event(host, *event) {
                    CallCheck::Ready => self.check_stream(host, *stream),
                    other => other,
                }
            },
            CudaCall::CudaStreamQuery(stream) => self.check_stream(host, *stream),
            CudaCall::CudaEventRecord(event) => self.check_stream(
                host,
                CudaStream { device: event.device, id: event.stream },
            ),
            CudaCall::CudaEventSynchronize(event) => self.check_event(host, *event),
            CudaCall::CudaEventQuery(event) => self.check_event(host, *event),
            CudaCall::CudaAddLatency(stream, _) => self.check_stream(host, *stream),
            CudaCall::FlashAttnCall {
                stream,
                is_fwd,
                is_bf16,
                batch_size,
                seqlen_q,
                seqlen_k,
                num_heads,
                num_heads_k,
                head_size,
                window_size_left,
                window_size_right,
                is_causal,
            } => {
                let key = FlashAttnKey {
                    is_fwd: *is_fwd,
                    is_bf16: *is_bf16,
                    batch_size: *batch_size,
                    seqlen_q: *seqlen_q,
                    seqlen_k: *seqlen_k,
                    num_heads: *num_heads,
                    num_heads_k: *num_heads_k,
                    head_size: *head_size,
                    window_size_left: *window_size_left,
                    window_size_right: *window_size_right,
                    is_causal: *is_causal,
                };
                if !self.cuda_estimator.has_flash_attn(key) {
                    return CallCheck::MeasureFlashAttn(key);
                }
                self.check_stream(host, *stream)
            },
            CudaCall::NcclGetUniqueId => CallCheck::Ready,
            CudaCall::NcclCommInitRank { device, rank, nranks, id } => {
                if self.comms.can_init(*rank, *nranks, &NcclId(*id)) {
                    CallCheck::Ready
                } else {
                    CallCheck::Refused(Refusal::MissingRanks)
                }
            },
            CudaCall::NcclCommSplit { .. } => CallCheck::Ready,
            CudaCall::NcclBcast { comm, stream, .. } => self.check_collective(host, comm, *stream),
            CudaCall::NcclAllReduce { comm, stream, .. } => {
                self.check_collective(host, comm, *stream)
            },
            CudaCall::NcclAllGather { comm, stream, .. } => {
                self.check_collective(host, comm, *stream)
            },
            CudaCall::NcclReduceScatter { comm, stream, .. } => {
                self.check_collective(host, comm, *stream)
            },
            CudaCall::NcclSend { count, dtype, stream, .. } => {
                if count.checked_mul(dtype.size()).is_none() {
                    return CallCheck::Refused(Refusal::TooLarge);
                }
                self.check_stream(host, *stream)
            },
            CudaCall::NcclRecv { count, dtype, stream, .. } => {
                if count.checked_mul(dtype.size()).is_none() {
                    return CallCheck::Refused(Refusal::TooLarge);
                }
                self.check_stream(host, *stream)
            },
            CudaCall::NcclP2pGroup { calls } => self.check_group(host, calls),
            CudaCall::ReadTimer(_) => CallCheck::Ready,
        }
    }
}

impl Simulator {
    /// Adds a computation to a stream.
    fn add_computation(
        &mut self,
        host: HostId,
        stream: CudaStream,
        micros: i64,
        call: CudaCall,
        curr_time: i64,
    )
        requires
            old(self)@.core.ready((host@, stream)),
        ensures
            final(self)@ == old(self)@.compute(host, stream, micros, call, curr_time),
    {
        let key = StreamKey { host: host.clone(), stream };
        let none: Vec<Option<EventId>> = Vec::new();
        assert(none@ =~= seq![]);
        self.core.add_event(
            &key,
            none,
            Some(Action::Computation(NodeId(host), micros, ComputeMeta::Cuda(call))),
            curr_time,
        );
    }

    fn cuda_memcpy_async(
        &mut self,
        host: HostId,
        curr_time: i64,
        size: usize,
        kind: CudaMemcpyKind,
        stream: CudaStream,
    )
        requires
            old(self)@.cuda.memcpy_answer(kind, size) is Some,
            old(self)@.core.ready((host@, stream)),
        ensures
            final(self)@ == (SimView {
                cuda: old(self)@.cuda.memcpy_asked(kind, size),
                ..old(self)@
            }).compute(
                host,
                stream,
                (old(self)@.cuda.memcpy_answer(kind, size)->0).micros(),
                CudaCall::CudaMemcpyAsync { size, kind, stream },
                curr_time,
            ),
    {
        if let Some(comp_time) = self.cuda_estimator.memcpy(kind, size) {
            self.add_computation(
                host,
                stream,
                comp_time.as_micros(),
                CudaCall::CudaMemcpyAsync { size, kind, stream },
                curr_time,
            );
        }
    }

    fn cuda_device_synchronize(&mut self, host: ResponseId, curr_time: i64, device: i32)
        requires
            old(self)@.core.check_all(
                old(self)@.core.device_streams(host.host@, device),
                0,
            ) is Ready,
        ensures
            ({
                let core = old(self)@.core;
                let names = core.device_streams(host.host@, device);
                let clear = core.flush_all(names);
                final(self)@ == (SimView {
                    core: clear.op(point(core.last_events(names), curr_time)),
                    ..old(self)@
                }).wait(clear.next(), host)
            }),
    {
        proof {
            lemma_check_all(self.core@, self.core@.device_streams(host.host@, device), 0);
        }
        let depends_on = self.core.flush_device(&host.host, device);
        let event = self.core.add_point(depends_on, curr_time);
        self.clock.wait_for(event, host);
        self.task = Task::RunTo { event };
    }

    fn cuda_stream_synchronize(&mut self, host: ResponseId, curr_time: i64, stream: CudaStream)
        requires
            old(self)@.core.ready((host.host@, stream)),
        ensures
            ({
                let name = (host.host@, stream);
                final(self)@ == old(self)@.event(name, seq![], None, curr_time).wait(
                    old(self)@.core.event_id(name),
                    host,
                )
            }),
    {
        let key = StreamKey { host: host.host.clone(), stream };
        let none: Vec<Option<EventId>> = Vec::new();
        assert(none@ =~= seq![]);
        let event = self.core.add_event(&key, none, None, curr_time);
        self.clock.wait_for(event, host);
        self.task = Task::RunTo { event };
    }

    /// The event that last recorded a CUDA event.
    fn recorded(&self, host: &HostId, event: CudaEvent) -> (id: EventId)
        requires
            self@.events.contains_key((host@, event)),
        ensures
            id == self@.events[(host@, event)],
    {
        match self.id_of_cuda.get(&EventKey { host: host.clone(), event }) {
            Some(id) => *id,
            None => 0,
        }
    }

    fn cuda_stream_wait_event(
        &mut self,
        host: HostId,
        curr_time: i64,
        stream: CudaStream,
        event: CudaEvent,
    )
        requires
            old(self)@.events.contains_key((host@, event)),
            old(self)@.core.ready((host@, stream)),
        ensures
            final(self)@ == old(self)@.event(
                (host@, stream),
                seq![Some(old(self)@.events[(host@, event)])],
                None,
                curr_time,
            ),
    {
        let id = self.recorded(&host, event);
        let mut depends_on: Vec<Option<EventId>> = Vec::new();
        depends_on.push(Some(id));
        assert(depends_on@ =~= seq![Some(id)]);
        self.core.add_event(&StreamKey { host, stream }, depends_on, None, curr_time);
    }

    fn cuda_stream_query(&mut self, host: ResponseId, curr_time: i64, stream: CudaStream)
        requires
            old(self)@.core.ready((host.host@, stream)),
        ensures
            ({
                let name = (host.host@, stream);
                let core = old(self)@.core;
                let clear = if core.streams.contains_key(name) {
                    core.flush(name)
                } else {
                    core
                };
                final(self)@ == (SimView { core: clear, ..old(self)@ }).at(
                    curr_time,
                    Next::StreamQuery {
                        host,
                        last_event: last_event(clear.stream(name).events),
                    },
                )
            }),
    {
        let key = StreamKey { host: host.host.clone(), stream };
        if self.core.has_stream(&key) {
            self.core.flush(&key);
        }
        let last_event = self.core.last_event_of(&key);
        self.task = Task::Peek { until: curr_time, next: Next::StreamQuery { host, last_event } };
    }

    fn cuda_event_record(&mut self, host: HostId, curr_time: i64, event: CudaEvent)
        requires
            old(self)@.core.ready((host@, event_stream(event))),
        ensures
            ({
                let name = (host@, event_stream(event));
                final(self)@ == (SimView {
                    events: old(self)@.events.insert(
                        (host@, event),
                        old(self)@.core.event_id(name),
                    ),
                    ..old(self)@.event(name, seq![], None, curr_time)
                })
            }),
    {
        let key = StreamKey {
            host: host.clone(),
            stream: CudaStream { device: event.device, id: event.stream },
        };
        let none: Vec<Option<EventId>> = Vec::new();
        assert(none@ =~= seq![]);
        let id = self.core.add_event(&key, none, None, curr_time);
        self.id_of_cuda.insert(EventKey { host, event }, id);
    }

    fn cuda_event_synchronize(&mut self, host: ResponseId, curr_time: i64, event: CudaEvent)
        requires
            old(self)@.events.contains_key((host.host@, event)),
        ensures
            final(self)@ == old(self)@.at(
                curr_time,
                Next::EventSync { host, event: old(self)@.events[(host.host@, event)] },
            ),
    {
        let event = self.recorded(&host.host, event);
        self.task = Task::Peek { until: curr_time, next: Next::EventSync { host, event } };
    }

    fn cuda_event_query(&mut self, host: ResponseId, curr_time: i64, event: CudaEvent)
        requires
            old(self)@.events.contains_key((host.host@, event)),
        ensures
            final(self)@ == old(self)@.at(
                curr_time,
                Next::EventQuery { host, event: old(self)@.events[(host.host@, event)] },
            ),
    {
        let event = self.recorded(&host.host, event);
        self.task = Task::Peek { until: curr_time, next: Next::EventQuery { host, event } };
    }

    fn flash_attn_call(
        &mut self,
        host: HostId,
        curr_time: i64,
        stream: CudaStream,
        key: FlashAttnKey,
        call: CudaCall,
    )
        requires
            old(self)@.cuda.flash_answer(key) is Some,
            old(self)@.core.ready((host@, stream)),
        ensures
            final(self)@ == (SimView {
                cuda: old(self)@.cuda.flash_asked(key),
                ..old(self)@
            }).compute(
                host,
                stream,
                (old(self)@.cuda.flash_answer(key)->0).micros(),
                call,
                curr_time,
            ),
    {
        if let Some(comp_time) = self.cuda_estimator.flash_attn(
            key.is_fwd,
            key.is_bf16,
            key.batch_size,
            key.seqlen_q,
            key.seqlen_k,
            key.num_heads,
            key.num_heads_k,
            key.head_size,
            key.window_size_left,
            key.window_size_right,
            key.is_causal,
        ) {
            self.add_computation(host, stream, comp_time.as_micros(), call, curr_time);
        }
    }

    fn nccl_collective(
        &mut self,
        host: HostId,
        curr_time: i64,
        signature: NcclCollectiveSignature,
        comm: NcclComm,
        stream: CudaStream,
        trace: Vec<Flow>,
    )
        requires
            old(self)@.comms.groups.contains_key(comm.id@),
            old(self)@.collectives.sequence(comm.id@) < u64::MAX,
            old(self)@.core.ready((host@, stream)),
        ensures
            final(self)@ == old(self)@.collective(
                host,
                curr_time,
                signature,
                comm,
                stream,
                trace@,
            ),
    {
        let nranks: i32 = match self.comms.group(&NcclId(comm.id)) {
            Some(group) => #[verifier::truncate]
            (group.len() as i32),
            None => 0,
        };
        let p = Participant { host, stream, comm, curr_time, signature };
        self.collectives.nccl_call(&mut self.core, &p, nranks, trace);
    }

    fn nccl_ungrouped_p2p(&mut self, host: HostId, curr_time: i64, call: P2PCallInfo)
        requires
            old(self)@.p2p.sizes_fit(),
            old(self)@.p2p.settled(),
            bytes_fit(call.count, call.dtype),
            old(self)@.core.ready((host@, call.stream)),
        ensures
            final(self)@ == old(self)@.send_or_receive(host, curr_time, call),
            final(self)@.p2p.sizes_fit(),
            final(self)@.p2p.settled(),
    {
        proof {
            law_p2p_settled(
                P2PState { core: self.core@, p2p: self.p2p@ },
                host,
                curr_time,
                call,
                seq![],
            );
        }
        self.p2p.nccl_ungrouped_p2p(&mut self.core, host, curr_time, call);
    }

    fn nccl_grouped_p2p(&mut self, host: &HostId, curr_time: i64, calls: &Vec<CudaCall>)
        requires
            old(self)@.p2p.sizes_fit(),
            old(self)@.p2p.settled(),
            calls_fit(p2p_calls(calls@)),
            streams_ready(old(self)@.core, *host, p2p_calls(calls@)),
        ensures
            ({
                let after = (P2PState {
                    core: old(self)@.core,
                    p2p: old(self)@.p2p,
                }).grouped(*host, curr_time, calls@);
                final(self)@ == (SimView { core: after.core, p2p: after.p2p, ..old(self)@ })
            }),
            final(self)@.p2p.sizes_fit(),
            final(self)@.p2p.settled(),
    {
        proof {
            law_p2p_settled(
                P2PState { core: self.core@, p2p: self.p2p@ },
                *host,
                curr_time,
                arbitrary(),
                calls@,
            );
        }
        self.p2p.nccl_grouped_p2p(&mut self.core, host, curr_time, calls);
    }

    /// Handles a call of a traced process. `trace` holds the transfers that a
    /// collective consists of; other calls have none.
    pub fn handle_cuda_call(&mut self, msg: CudaCallMsg, trace: Vec<Flow>)
        requires
            old(self)@.well_formed(),
            old(self)@.task is Idle,
            old(self)@.need(msg) is Ready,
        ensures
            final(self)@ == old(self)@.handle(msg, trace@),
            final(self)@.well_formed(),
    {
        let ghost first = self@;
        let CudaCallMsg { id: who, curr_time, call } = msg;
        self.clock.update_host_curr(&who.host, curr_time);
        let ghost s = self@;
        match call {
            CudaCall::CudaMemcpyAsync { size, kind, stream } => {
                proof {
                    lemma_check(s.core, (who.host@, stream));
                }
                self.cuda_memcpy_async(who.host, curr_time, size, kind, stream)
            },
            CudaCall::CudaDeviceSynchronize(device) => {
                self.cuda_device_synchronize(who, curr_time, device)
            },
            CudaCall::CudaStreamSynchronize(stream) => {
                proof {
                    lemma_check(s.core, (who.host@, stream));
                }
                self.cuda_stream_synchronize(who, curr_time, stream)
            },
            CudaCall::CudaStreamWaitEvent { stream, event } => {
                proof {
                    lemma_check(s.core, (who.host@, stream));
                }
                self.cuda_stream_wait_event(who.host, curr_time, stream, event)
            },
            CudaCall::CudaStreamQuery(stream) => {
                proof {
                    lemma_check(s.core, (who.host@, stream));
                }
                self.cuda_stream_query(who, curr_time, stream)
            },
            CudaCall::CudaEventRecord(event) => {
                proof {
                    lemma_check(s.core, (who.host@, event_stream(event)));
                }
                self.cuda_event_record(who.host, curr_time, event)
            },
            CudaCall::CudaEventSynchronize(event) => {
                self.cuda_event_synchronize(who, curr_time, event)
            },
            CudaCall::CudaEventQuery(event) => self.cuda_event_query(who, curr_time, event),
            CudaCall::CudaAddLatency(stream, latency) => {
                proof {
                    lemma_check(s.core, (who.host@, stream));
                }
                self.add_computation(
                    who.host,
                    stream,
                    latency,
                    CudaCall::CudaAddLatency(stream, latency),
                    curr_time,
                )
            },
            CudaCall::FlashAttnCall {
                stream,
                is_fwd,
                is_bf16,
                batch_size,
                seqlen_q,
                seqlen_k,
                num_heads,
                num_heads_k,
                head_size,
                window_size_left,
                window_size_right,
                is_causal,
            } => {
                proof {
                    lemma_check(s.core, (who.host@, stream));
                }
                let key = FlashAttnKey {
                    is_fwd,
                    is_bf16,
                    batch_size,
                    seqlen_q,
                    seqlen_k,
                    num_heads,
                    num_heads_k,
                    head_size,
                    window_size_left,
                    window_size_right,
                    is_causal,
                };
                self.flash_attn_call(
                    who.host,
                    curr_time,
                    stream,
                    key,
                    CudaCall::FlashAttnCall {
                        stream,
                        is_fwd,
                        is_bf16,
                        batch_size,
                        seqlen_q,
                        seqlen_k,
                        num_heads,
                        num_heads_k,
                        head_size,
                        window_size_left,
                        window_size_right,
                        is_causal,
                    },
                )
            },
            CudaCall::NcclGetUniqueId => self.comms.nccl_get_unique_id(&mut self.clock, who),
            CudaCall::NcclCommInitRank { device, rank, nranks, id } => {
                self.task = Task::Peek {
                    until: curr_time,
                    next: Next::InitRank { host: who, device, rank, nranks, id },
                };
            },
            CudaCall::NcclCommSplit { comm, color, key } => {
                self.task = Task::Peek {
                    until: curr_time,
                    next: Next::CommSplit { host: who, rank: comm.rank, id: comm.id, color, key },
                };
            },
            CudaCall::NcclBcast { count, dtype, root, comm, stream } => {
                proof {
                    lemma_check(s.core, (who.host@, stream));
                }
                let signature = NcclCollectiveSignature::Bcast { count, dtype, root };
                self.nccl_collective(who.host, curr_time, signature, comm, stream, trace)
            },
            CudaCall::NcclAllReduce { count, dtype, op, comm, stream } => {
                proof {
                    lemma_check(s.core, (who.host@, stream));
                }
                let signature = NcclCollectiveSignature::AllReduce { count, dtype, op };
                self.nccl_collective(who.host, curr_time, signature, comm, stream, trace)
            },
            CudaCall::NcclAllGather { count, dtype, comm, stream } => {
                proof {
                    lemma_check(s.core, (who.host@, stream));
                }
                let signature = NcclCollectiveSignature::AllGather { count, dtype };
                self.nccl_collective(who.host, curr_time, signature, comm, stream, trace)
            },
            CudaCall::NcclReduceScatter { count, dtype, op, comm, stream } => {
                proof {
                    lemma_check(s.core, (who.host@, stream));
                }
                let signature = NcclCollectiveSignature::ReduceScatter { count, dtype, op };
                self.nccl_collective(who.host, curr_time, signature, comm, stream, trace)
            },
            CudaCall::NcclSend { count, dtype, peer, comm, stream } => {
                proof {
                    lemma_check(s.core, (who.host@, stream));
                }
                let call = P2PCallInfo {
                    kind: P2PCallKind::Send,
                    key: p2p_key(P2PCallKind::Send, comm, peer),
                    stream,
                    count,
                    dtype,
                };
                self.nccl_ungrouped_p2p(who.host, curr_time, call)
            },
            CudaCall::NcclRecv { count, dtype, peer, comm, stream } => {
                proof {
                    lemma_check(s.core, (who.host@, stream));
                }
                let call = P2PCallInfo {
                    kind: P2PCallKind::Recv,
                    key: p2p_key(P2PCallKind::Recv, comm, peer),
                    stream,
                    count,
                    dtype,
                };
                self.nccl_ungrouped_p2p(who.host, curr_time, call)
            },
            CudaCall::NcclP2pGroup { calls } => {
                proof {
                    let p2p = p2p_calls(calls@);
                    let names = p2p_names(who.host@, p2p);
                    lemma_check_all(s.core, names, 0);
                    assert forall|i: int| 0 <= i < p2p.len() implies s.core.ready(
                        (who.host@, (#[trigger] p2p[i]).stream),
                    ) by {
                        assert(s.core.ready(names[i]));
                    }
                }
                self.nccl_grouped_p2p(&who.host, curr_time, &calls)
            },
            CudaCall::ReadTimer(_) => self.clock.update_host_curr(&who.host, curr_time),
        }
    }

    /// Whether the time of a traced operator call is known or need not be.
    pub fn knows_torch_call(&self, info: &TorchCallInfo) -> (b: bool)
        ensures
            b == self@.core.times.answer(info@) is Some,
    {
        self.core.torch_estimator().has_time(info)
    }

    /// Handles a traced operator call, which is buffered on its stream.
    pub fn handle_torch_call(&mut self, call: TorchCall)
        requires
            old(self)@.core.times.answer(call.info@) is Some,
        ensures
            final(self)@ == old(self)@.handle_torch(call),
            old(self)@.well_formed() ==> final(self)@.well_formed(),
    {
        self.clock.update_host_curr(&call.id.host, call.time);
        let estimator = self.core.torch_estimator_mut();
        if let Some(comp_dur) = estimator.estimate(&call.info) {
            let key = StreamKey { host: call.id.host.clone(), stream: call.stream };
            self.core.buffer(&key, call, comp_dur);
        }
    }

    /// Handles the exit of a traced process.
    pub fn handle_exit(&mut self, host: ResponseId, curr_time: i64)
        ensures
            final(self)@ == (SimView {
                exited: old(self)@.exited.insert(host.host@, curr_time),
                ..old(self)@
            }),
            old(self)@.well_formed() ==> final(self)@.well_formed(),
    {
        self.exited_hosts.insert(host.host, curr_time);
    }
}

impl Simulator {
    /// Answers the thread that waits for the event of a step, if there is one.
    fn note_step(&mut self, step: QueueStep)
        ensures
            final(self)@ == old(self)@.ended(step),
    {
        match step {
            QueueStep::EventEnded(id, time) => self.clock.event_ended(id, time),
            QueueStep::ReachedPoint(id, time) => self.clock.event_ended(id, time),
            _ => {},
        }
    }

    /// Does what was to be done once the queue has been run up to a time.
    fn reach(&mut self, time: i64, next: Next)
        requires
            old(self)@.can_do(next),
        ensures
            final(self)@ == old(self)@.reached(time, next),
    {
        self.task = Task::Idle;
        match next {
            Next::InitRank { host, device, rank, nranks, id } => self.comms.nccl_comm_init_rank(
                &mut self.clock,
                host,
                time,
                device,
                rank,
                nranks,
                id,
            ),
            Next::CommSplit { host, rank, id, color, key } => self.comms.nccl_comm_split(
                &mut self.clock,
                host,
                time,
                rank,
                id,
                color,
                key,
            ),
            Next::EventSync { host, event } => {
                self.task = Task::Ask { event, host, curr_time: time, blocking: true };
            },
            Next::EventQuery { host, event } => {
                self.task = Task::Ask { event, host, curr_time: time, blocking: false };
            },
            Next::StreamQuery { host, last_event } => match last_event {
                Some(event) => {
                    self.task = Task::Ask { event, host, curr_time: time, blocking: false };
                },
                None => self.clock.send_query_response_to(host, Some((time, None)), time),
            },
        }
    }

    /// Runs the queue up to a time, one answer after the other.
    fn execute_to_time(&mut self, until: i64, next: Next, answer: Answer)
        requires
            old(self)@.can_do(next),
            old(self)@.task is Idle,
            answer is NextTime || answer is Step,
        ensures
            answer is NextTime ==> final(self)@ == (SimView {
                task: Task::Peek { until, next },
                ..old(self)@
            }).resume(answer),
            answer is Step ==> final(self)@ == (SimView {
                task: Task::Advance { until, next },
                ..old(self)@
            }).resume(answer),
    {
        match answer {
            Answer::NextTime(Some(t)) => {
                if t >= until {
                    self.reach(until, next);
                } else {
                    self.task = Task::Advance { until, next };
                }
            },
            Answer::NextTime(None) => self.reach(until, next),
            Answer::Step(QueueStep::EmptyQueue) => self.reach(until, next),
            Answer::Step(step) => {
                self.note_step(step);
                self.task = Task::Peek { until, next };
            },
            Answer::Completed(_) => {},
        }
    }

    /// Runs the queue up to an event, one step after the other.
    fn execute_to_event(&mut self, until: EventId, step: QueueStep)
        requires
            old(self)@.task is Idle,
        ensures
            final(self)@ == (SimView { task: Task::RunTo { event: until }, ..old(self)@ }).resume(
                Answer::Step(step),
            ),
    {
        match step {
            QueueStep::EmptyQueue => {},
            QueueStep::EventStarted(_, _) => {
                self.task = Task::RunTo { event: until };
            },
            QueueStep::EventEnded(id, _) | QueueStep::ReachedPoint(id, _) => {
                self.note_step(step);
                if id != until {
                    self.task = Task::RunTo { event: until };
                }
            },
        }
    }

    /// Goes on with what the queue answered.
    pub fn resume(&mut self, answer: Answer)
        requires
            old(self)@.well_formed(),
            old(self)@.task.asks().takes(answer),
        ensures
            final(self)@ == old(self)@.resume(answer),
            final(self)@.well_formed(),
    {
        let mut task = Task::Idle;
        core::mem::swap(&mut task, &mut self.task);
        match (task, answer) {
            (Task::Peek { until, next }, _) => self.execute_to_time(until, next, answer),
            (Task::Advance { until, next }, _) => self.execute_to_time(until, next, answer),
            (Task::RunTo { event: until }, Answer::Step(step)) => self.execute_to_event(until, step),
            (
                Task::Ask { event, host, curr_time, blocking },
                Answer::Completed(Some(time)),
            ) => {
                if blocking {
                    self.clock.send_sync_response_to(host, time, Some(event));
                } else {
                    self.clock.send_query_response_to(host, Some((time, Some(event))), curr_time);
                }
            },
            (Task::Ask { event, host, curr_time, blocking }, Answer::Completed(None)) => {
                if blocking {
                    self.clock.wait_for(event, host);
                    self.task = Task::RunTo { event };
                } else {
                    self.clock.send_query_response_to(host, None, curr_time);
                }
            },
            _ => {},
        }
    }
}

/// The rank that takes part in a collective by a call, if it is such a call.
pub open spec fn participant_of(msg: CudaCallMsg) -> Option<Participant> {
    let host = msg.id.host;
    let curr_time = msg.curr_time;
    match msg.call {
        CudaCall::NcclBcast { count, dtype, root, comm, stream } => {
            let signature = NcclCollectiveSignature::Bcast { count, dtype, root };
            Some(Participant { host, stream, comm, curr_time, signature })
        },
        CudaCall::NcclAllReduce { count, dtype, op, comm, stream } => {
            let signature = NcclCollectiveSignature::AllReduce { count, dtype, op };
            Some(Participant { host, stream, comm, curr_time, signature })
        },
        CudaCall::NcclAllGather { count, dtype, comm, stream } => {
            let signature = NcclCollectiveSignature::AllGather { count, dtype };
            Some(Participant { host, stream, comm, curr_time, signature })
        },
        CudaCall::NcclReduceScatter { count, dtype, op, comm, stream } => {
            let signature = NcclCollectiveSignature::ReduceScatter { count, dtype, op };
            Some(Participant { host, stream, comm, curr_time, signature })
        },
        _ => None,
    }
}

fn participant(msg: &CudaCallMsg) -> (r: Option<Participant>)
    ensures
        r == participant_of(*msg),
{
    let curr_time = msg.curr_time;
    let (signature, comm, stream) = match &msg.call {
        CudaCall::NcclBcast { count, dtype, root, comm, stream } => (
            NcclCollectiveSignature::Bcast { count: *count, dtype: *dtype, root: *root },
            *comm,
            *stream,
        ),
        CudaCall::NcclAllReduce { count, dtype, op, comm, stream } => (
            NcclCollectiveSignature::AllReduce { count: *count, dtype: *dtype, op: *op },
            *comm,
            *stream,
        ),
        CudaCall::NcclAllGather { count, dtype, comm, stream } => (
            NcclCollectiveSignature::AllGather { count: *count, dtype: *dtype },
            *comm,
            *stream,
        ),
        CudaCall::NcclReduceScatter { count, dtype, op, comm, stream } => (
            NcclCollectiveSignature::ReduceScatter { count: *count, dtype: *dtype, op: *op },
            *comm,
            *stream,
        ),
        _ => {
            return None;
        },
    };
    Some(Participant { host: msg.id.host.clone(), stream, comm, curr_time, signature })
}

impl SimView {
    /// What is told of a call where the matching of collectives is traced.
    pub open spec fn match_trace(self, msg: CudaCallMsg) -> Seq<Seq<char>> {
        match participant_of(msg) {
            Some(p) if self.comms.groups.contains_key(p.comm.id@) => event_texts(
                p,
                self.collectives.match_events(p, self.comms.groups[p.comm.id@].len() as i32),
            ),
            _ => seq![],
        }
    }
}

impl Simulator {
    /// What is told of a call, before it is handled, where the matching of collectives
    /// is traced.
    pub fn match_trace(&self, msg: &CudaCallMsg) -> (r: Vec<String>)
        ensures
            texts(r@) == self@.match_trace(*msg),
    {
        if let Some(p) = participant(msg) {
            if let Some(group) = self.comms.group(&NcclId(p.comm.id)) {
                let nranks: i32 = #[verifier::truncate]
                (group.len() as i32);
                let events = self.collectives.match_events(&p, nranks);
                return event_lines(&p, &events);
            }
        }
        let r: Vec<String> = Vec::new();
        assert(texts(r@) =~= seq![]);
        r
    }
}

/// What is reported moves no clock but by being seen.
pub proof fn lemma_handle_times(s: SimView, msg: CudaCallMsg, trace: Seq<Flow>)
    ensures
        ({
            let seen = s.clock.seen(msg.id.host@, msg.curr_time);
            let after = s.handle(msg, trace).clock;
            if msg.call is ReadTimer {
                after == seen.seen(msg.id.host@, msg.curr_time)
            } else {
                after.times == seen.times
            }
        }),
{
}

proof fn lemma_handle_forward(s: SimView, msg: CudaCallMsg, trace: Seq<Flow>)
    ensures
        s.handle(msg, trace).clock.not_before(s.clock),
{
    let host = msg.id.host@;
    let seen = s.clock.seen(host, msg.curr_time);
    lemma_handle_times(s, msg, trace);
    lemma_seen_forward(s.clock, host, msg.curr_time);
    lemma_seen_forward(seen, host, msg.curr_time);
    let after = s.handle(msg, trace).clock;
    assert forall|h: HostName| #[trigger] s.clock.times.contains_key(h) implies {
        &&& after.times.contains_key(h)
        &&& s.clock.times[h].curr <= after.times[h].curr
    } by {
        assert(seen.times.contains_key(h));
    }
}

proof fn lemma_torch_forward(s: SimView, call: TorchCall)
    ensures
        s.handle_torch(call).clock.not_before(s.clock),
{
    lemma_seen_forward(s.clock, call.id.host@, call.time);
}

proof fn lemma_ended_forward(s: SimView, step: QueueStep)
    ensures
        s.ended(step).clock.not_before(s.clock),
{
    match step {
        QueueStep::EventEnded(id, time) => lemma_ended_clock(s.clock, id, time),
        QueueStep::ReachedPoint(id, time) => lemma_ended_clock(s.clock, id, time),
        _ => {},
    }
}

proof fn lemma_resume_forward(s: SimView, answer: Answer)
    ensures
        s.resume(answer).clock.not_before(s.clock),
{
    match (s.task, answer) {
        (Task::Peek { until, next }, _) => lemma_reached_forward(s, until, next),
        (Task::Advance { until, next }, Answer::Step(step)) => {
            lemma_reached_forward(s, until, next);
            lemma_ended_forward(s, step);
        },
        (Task::RunTo { event }, Answer::Step(step)) => lemma_ended_forward(s, step),
        _ => {},
    }
}

/// Whatever is reported, and whatever the queue answers, the clock of no process
/// goes back.
pub proof fn law_clocks_never_go_back(
    s: SimView,
    msg: CudaCallMsg,
    trace: Seq<Flow>,
    call: TorchCall,
    answer: Answer,
)
    ensures
        s.handle(msg, trace).clock.not_before(s.clock),
        s.handle_torch(call).clock.not_before(s.clock),
        s.resume(answer).clock.not_before(s.clock),
{
    lemma_handle_forward(s, msg, trace);
    lemma_torch_forward(s, call);
    lemma_resume_forward(s, answer);
}

/// What is done once the queue was run up to a time sets no clock back, and leaves the
/// threads that wait for events alone.
pub proof fn lemma_reached_forward(s: SimView, time: i64, next: Next)
    ensures
        s.reached(time, next).clock.not_before(s.clock),
        s.reached(time, next).clock.syncing == s.clock.syncing,
{
    let state = CommState { comms: s.comms, clock: s.clock };
    match next {
        Next::InitRank { host, device, rank, nranks, id } => law_comms_step_forward(
            state,
            host,
            time,
            device,
            rank,
            nranks,
            id@,
            0,
            0,
        ),
        Next::CommSplit { host, rank, id, color, key } => law_comms_step_forward(
            state,
            host,
            time,
            0,
            rank,
            0,
            id@,
            color,
            key,
        ),
        _ => {},
    }
}

/// What the queue answers changes no stream, no waiting transfer, no recorded event
/// and no known time.
pub proof fn law_resume_leaves_streams(s: SimView, answer: Answer)
    ensures
        s.resume(answer).core == s.core,
        s.resume(answer).p2p == s.p2p,
        s.resume(answer).collectives == s.collectives,
        s.resume(answer).events == s.events,
        s.resume(answer).cuda == s.cuda,
        s.resume(answer).exited == s.exited,
{
}

} // verus!
