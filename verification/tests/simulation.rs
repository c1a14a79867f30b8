use phantora::cuda_call::{
    CudaCall, CudaCallMsg, CudaEvent, CudaMemcpyKind, CudaStream, HostId, NcclComm, NcclDatatype,
    NcclReduceOp, ResponseId, SyncResponse, NCCL_SPLIT_NOCOLOR,
};
use phantora::cuda_estimate::CudaEstimator;
use phantora::duration::Duration;
use phantora::event_queue::{Action, ComputeMeta, Flow, QueueOp, QueueStep};
use phantora::nccl_id::NcclId;
use phantora::perf_db::{FlashAttnKey, PerfDb};
use phantora::recording::replayed;
use phantora::simulator::hosts::{HostTime, Reply, ReplyBody, SyncPoint};
use phantora::simulator::streams::{run_starts, split_sequences, TorchCallSeq};
use phantora::simulator::task::{Answer, Request};
use phantora::simulator::{CallCheck, Refusal, Simulator};
use phantora::torch_call::{
    hash_infos, hash_sequence, Kind, TensorInfo, TorchArg, TorchCall, TorchCallInfo, TorchOp,
};
use phantora::torch_estimate::TorchEstimator;

const STREAM: CudaStream = CudaStream { device: 0, id: 5 };

fn host(name: &str) -> HostId {
    HostId { hostname: name.to_string(), pid: 1 }
}

fn thread(name: &str) -> ResponseId {
    ResponseId { host: host(name), tid: 2 }
}

fn msg(name: &str, curr_time: i64, call: CudaCall) -> CudaCallMsg {
    CudaCallMsg { id: thread(name), curr_time, call }
}

fn micros(n: u64) -> Duration {
    Duration::from_nanos(n * 1000)
}

fn simulator() -> Simulator {
    Simulator::new(CudaEstimator::new("GPU".to_string()), TorchEstimator::new(), false)
}

fn ready(sim: &Simulator, m: &CudaCallMsg) -> bool {
    matches!(sim.check(m), CallCheck::Ready)
}

fn handle(sim: &mut Simulator, m: CudaCallMsg) {
    assert!(ready(sim, &m));
    sim.handle_cuda_call(m, vec![]);
}

/// Runs to the end whatever is asked of the queue: no step is left, and no event completed.
fn nothing_runs(sim: &mut Simulator) {
    loop {
        match sim.request() {
            Request::Done => return,
            Request::PeekNextTime => sim.resume(Answer::NextTime(None)),
            Request::Execute => sim.resume(Answer::Step(QueueStep::EmptyQueue)),
            Request::Query(_) => sim.resume(Answer::Completed(None)),
        }
    }
}

fn depends(sim: &Simulator, i: usize) -> Vec<Option<usize>> {
    match sim.queue().op(i) {
        QueueOp::Add { depends_on, .. } => depends_on.clone(),
        other => panic!("{other:?}"),
    }
}

fn sync_reply(to: &str, end_time: i64) -> Reply {
    Reply { to: thread(to), body: ReplyBody::Sync(SyncResponse { end_time }) }
}

#[test]
fn events_of_a_stream_wait_for_each_other() {
    let mut sim = simulator();
    handle(&mut sim, msg("a", 1, CudaCall::CudaAddLatency(STREAM, 7)));
    handle(&mut sim, msg("a", 2, CudaCall::CudaAddLatency(STREAM, 8)));
    handle(&mut sim, msg("a", 3, CudaCall::CudaAddLatency(CudaStream { device: 0, id: 6 }, 9)));
    assert_eq!(sim.queue().len(), 3);
    assert_eq!(depends(&sim, 0), vec![]);
    assert_eq!(depends(&sim, 1), vec![Some(0)]);
    assert_eq!(depends(&sim, 2), vec![]);
    match sim.queue().op(1) {
        QueueOp::Add { action: Some(Action::Computation(node, 8, ComputeMeta::Cuda(_))), time: 2, .. } => {
            assert_eq!(node.0, host("a"))
        }
        other => panic!("{other:?}"),
    }
}

#[test]
fn a_stream_is_waited_for() {
    let mut sim = simulator();
    handle(&mut sim, msg("a", 1, CudaCall::CudaAddLatency(STREAM, 7)));
    handle(&mut sim, msg("a", 2, CudaCall::CudaStreamSynchronize(STREAM)));
    assert_eq!(sim.request(), Request::Execute);
    sim.resume(Answer::Step(QueueStep::EventStarted(0, 1)));
    sim.resume(Answer::Step(QueueStep::EventEnded(0, 8)));
    assert!(sim.take_replies().is_empty());
    assert_eq!(sim.request(), Request::Execute);
    sim.resume(Answer::Step(QueueStep::ReachedPoint(1, 8)));
    assert_eq!(sim.request(), Request::Done);
    assert_eq!(sim.take_replies(), vec![sync_reply("a", 8)]);
    assert_eq!(
        sim.host_time(&host("a")),
        Some(HostTime { sync: SyncPoint::EventEnd(1), curr: 8 })
    );
}

#[test]
fn a_clock_never_goes_back() {
    let mut sim = simulator();
    handle(&mut sim, msg("a", 50, CudaCall::ReadTimer(STREAM)));
    handle(&mut sim, msg("a", 20, CudaCall::ReadTimer(STREAM)));
    assert_eq!(
        sim.host_time(&host("a")),
        Some(HostTime { sync: SyncPoint::Static(50), curr: 50 })
    );
    assert_eq!(sim.host_time(&host("b")), None);
}

#[test]
fn a_device_is_waited_for_on_all_its_streams() {
    let mut sim = simulator();
    handle(&mut sim, msg("a", 1, CudaCall::CudaAddLatency(CudaStream { device: 0, id: 1 }, 1)));
    handle(&mut sim, msg("a", 1, CudaCall::CudaAddLatency(CudaStream { device: 1, id: 1 }, 1)));
    handle(&mut sim, msg("a", 1, CudaCall::CudaAddLatency(CudaStream { device: 0, id: 2 }, 1)));
    handle(&mut sim, msg("b", 1, CudaCall::CudaAddLatency(CudaStream { device: 0, id: 3 }, 1)));
    handle(&mut sim, msg("a", 2, CudaCall::CudaDeviceSynchronize(0)));
    assert_eq!(depends(&sim, 4), vec![Some(0), Some(2)]);
}

fn cuda_event() -> CudaEvent {
    CudaEvent { device: 0, stream: 5, id: 9 }
}

#[test]
fn events_are_recorded_waited_for_and_polled() {
    let mut sim = simulator();
    let wait = msg("a", 2, CudaCall::CudaEventSynchronize(cuda_event()));
    assert!(matches!(sim.check(&wait), CallCheck::Refused(Refusal::UnknownEvent)));
    handle(&mut sim, msg("a", 1, CudaCall::CudaEventRecord(cuda_event())));
    handle(
        &mut sim,
        msg(
            "a",
            1,
            CudaCall::CudaStreamWaitEvent {
                stream: CudaStream { device: 0, id: 6 },
                event: cuda_event(),
            },
        ),
    );
    assert_eq!(depends(&sim, 1), vec![Some(0)]);
    handle(&mut sim, wait);
    assert_eq!(sim.request(), Request::PeekNextTime);
    sim.resume(Answer::NextTime(Some(1)));
    assert_eq!(sim.request(), Request::Execute);
    sim.resume(Answer::Step(QueueStep::ReachedPoint(0, 1)));
    sim.resume(Answer::NextTime(None));
    assert_eq!(sim.request(), Request::Query(0));
    sim.resume(Answer::Completed(Some(1)));
    assert_eq!(sim.take_replies(), vec![sync_reply("a", 1)]);

    handle(&mut sim, msg("a", 3, CudaCall::CudaEventQuery(cuda_event())));
    sim.resume(Answer::NextTime(Some(3)));
    assert_eq!(sim.request(), Request::Query(0));
    sim.resume(Answer::Completed(None));
    assert_eq!(
        sim.take_replies(),
        vec![Reply { to: thread("a"), body: ReplyBody::Query(None) }]
    );
    assert_eq!(sim.host_time(&host("a")).unwrap().curr, 3);
}

#[test]
fn an_event_that_has_not_ended_is_waited_for() {
    let mut sim = simulator();
    handle(&mut sim, msg("a", 1, CudaCall::CudaEventRecord(cuda_event())));
    handle(&mut sim, msg("a", 2, CudaCall::CudaEventSynchronize(cuda_event())));
    sim.resume(Answer::NextTime(None));
    sim.resume(Answer::Completed(None));
    assert_eq!(sim.request(), Request::Execute);
    sim.resume(Answer::Step(QueueStep::ReachedPoint(0, 30)));
    assert_eq!(sim.request(), Request::Done);
    assert_eq!(sim.take_replies(), vec![sync_reply("a", 30)]);
}

#[test]
fn an_idle_stream_is_ready_at_once() {
    let mut sim = simulator();
    handle(&mut sim, msg("a", 4, CudaCall::CudaStreamQuery(STREAM)));
    sim.resume(Answer::NextTime(None));
    assert_eq!(sim.request(), Request::Done);
    assert_eq!(
        sim.take_replies(),
        vec![Reply { to: thread("a"), body: ReplyBody::Query(Some(4)) }]
    );
    handle(&mut sim, msg("a", 5, CudaCall::CudaAddLatency(STREAM, 1)));
    handle(&mut sim, msg("a", 6, CudaCall::CudaStreamQuery(STREAM)));
    sim.resume(Answer::NextTime(None));
    assert_eq!(sim.request(), Request::Query(0));
    sim.resume(Answer::Completed(Some(6)));
    assert_eq!(
        sim.take_replies(),
        vec![Reply { to: thread("a"), body: ReplyBody::Query(Some(6)) }]
    );
}

#[test]
fn copies_and_kernels_are_measured_once() {
    let mut sim = simulator();
    let copy = || CudaCall::CudaMemcpyAsync {
        size: 64,
        kind: CudaMemcpyKind::HostToDevice,
        stream: STREAM,
    };
    match sim.check(&msg("a", 1, copy())) {
        CallCheck::MeasureMemcpy(kind, size) => {
            assert_eq!((kind, size), (CudaMemcpyKind::HostToDevice, 64));
            sim.cuda_estimator_mut().record_memcpy(kind, size, micros(12));
        }
        _ => panic!("measured"),
    }
    handle(&mut sim, msg("a", 1, copy()));
    assert!(matches!(
        sim.queue().op(0),
        QueueOp::Add { action: Some(Action::Computation(_, 12, _)), .. }
    ));
    let kernel = || CudaCall::FlashAttnCall {
        stream: STREAM,
        is_fwd: true,
        is_bf16: false,
        batch_size: 1,
        seqlen_q: 2,
        seqlen_k: 3,
        num_heads: 4,
        num_heads_k: 5,
        head_size: 6,
        window_size_left: 7,
        window_size_right: 8,
        is_causal: true,
    };
    match sim.check(&msg("a", 1, kernel())) {
        CallCheck::MeasureFlashAttn(key) => {
            assert_eq!(
                key,
                FlashAttnKey {
                    is_fwd: true,
                    is_bf16: false,
                    batch_size: 1,
                    seqlen_q: 2,
                    seqlen_k: 3,
                    num_heads: 4,
                    num_heads_k: 5,
                    head_size: 6,
                    window_size_left: 7,
                    window_size_right: 8,
                    is_causal: true,
                }
            );
            sim.cuda_estimator_mut().record_flash_attn(key, micros(34));
        }
        _ => panic!("measured"),
    }
    handle(&mut sim, msg("a", 1, kernel()));
    assert!(matches!(
        sim.queue().op(1),
        QueueOp::Add { action: Some(Action::Computation(_, 34, _)), .. }
    ));
}

fn neg(size: i64) -> TorchCallInfo {
    TorchCallInfo {
        op: TorchOp::Neg,
        args: vec![TorchArg::Tensor(TensorInfo { shape: vec![size], dtype: Kind::Float })],
    }
}

fn operator(time: i64, size: i64) -> TorchCall {
    TorchCall { id: thread("a"), stream: STREAM, time, info: neg(size) }
}

#[test]
fn operators_are_buffered_and_measured_in_runs() {
    let mut sim = simulator();
    assert!(!sim.knows_torch_call(&neg(1)));
    sim.torch_estimator_mut().record(&neg(1), micros(10));
    sim.torch_estimator_mut().record(&neg(2), micros(20));
    assert!(sim.knows_torch_call(&neg(1)));
    sim.handle_torch_call(operator(0, 1));
    sim.handle_torch_call(operator(5, 2));
    sim.handle_torch_call(operator(100, 1));
    assert_eq!(sim.queue().len(), 0);
    let sync = || msg("a", 120, CudaCall::CudaStreamSynchronize(STREAM));
    match sim.check(&sync()) {
        CallCheck::MeasureRun(calls) => {
            assert_eq!(calls, vec![neg(1), neg(2)]);
            sim.torch_estimator_mut().record_sequence(&calls, vec![micros(3), micros(4)]);
        }
        _ => panic!("measured"),
    }
    handle(&mut sim, sync());
    assert_eq!(sim.queue().len(), 4);
    let time = |i: usize| match sim.queue().op(i) {
        QueueOp::Add { action: Some(Action::Computation(_, micros, ComputeMeta::Torch(_))), time, .. } => {
            (*micros, *time)
        }
        other => panic!("{other:?}"),
    };
    assert_eq!((time(0), time(1), time(2)), ((3, 0), (4, 5), (10, 100)));
    assert_eq!(depends(&sim, 3), vec![Some(2)]);
    assert_eq!(depends(&sim, 2), vec![Some(1)]);
}

#[test]
fn a_run_with_too_few_times_is_refused() {
    let mut sim = simulator();
    sim.torch_estimator_mut().record(&neg(1), micros(10));
    sim.torch_estimator_mut().record_sequence(&vec![neg(1), neg(1)], vec![micros(1)]);
    sim.handle_torch_call(operator(0, 1));
    sim.handle_torch_call(operator(1, 1));
    let sync = msg("a", 2, CudaCall::CudaStreamSynchronize(STREAM));
    assert!(matches!(sim.check(&sync), CallCheck::Refused(Refusal::ShortRun)));
}

#[test]
fn operators_keep_their_own_times_where_runs_are_switched_off() {
    let mut torch = TorchEstimator::new();
    torch.record(&neg(1), micros(10));
    let mut sim = Simulator::new(CudaEstimator::new("GPU".to_string()), torch, true);
    sim.handle_torch_call(operator(0, 1));
    sim.handle_torch_call(operator(1, 1));
    handle(&mut sim, msg("a", 2, CudaCall::CudaStreamSynchronize(STREAM)));
    assert_eq!(sim.queue().len(), 3);
}

#[test]
fn calls_are_cut_where_the_stream_runs_dry() {
    let calls = || vec![
        (operator(0, 1), micros(10)),
        (operator(10, 1), micros(5)),
        (operator(16, 1), micros(1)),
    ];
    assert_eq!(run_starts(&calls()), vec![0, 2]);
    let runs = split_sequences(calls(), false);
    assert_eq!(runs.len(), 2);
    assert!(matches!(&runs[0], TorchCallSeq::Run(c) if c.len() == 2));
    assert!(matches!(&runs[1], TorchCallSeq::Single(c, d) if c.time == 16 && *d == micros(1)));
    assert_eq!(split_sequences(calls(), true).len(), 3);
    assert!(split_sequences(vec![], false).is_empty());
}

#[test]
fn runs_of_calls_are_told_apart_by_their_hashes() {
    let calls = vec![operator(0, 1), operator(9, 2)];
    assert_eq!(hash_sequence(&calls), hash_infos(&vec![neg(1), neg(2)]));
    assert_ne!(hash_sequence(&calls), hash_infos(&vec![neg(2), neg(1)]));
    assert_ne!(hash_sequence(&calls), hash_infos(&vec![neg(1)]));
}

fn id(n: u8) -> [u8; 128] {
    let mut id = [0u8; 128];
    id[0] = n;
    id
}

fn form(sim: &mut Simulator, names: &[&str], n: u8) {
    for (rank, name) in names.iter().enumerate() {
        let init = CudaCall::NcclCommInitRank {
            device: rank as i32,
            rank: rank as i32,
            nranks: names.len() as i32,
            id: id(n),
        };
        handle(sim, msg(name, 1, init));
        nothing_runs(sim);
    }
}

#[test]
fn ids_are_given_out_in_order() {
    let mut sim = simulator();
    handle(&mut sim, msg("a", 1, CudaCall::NcclGetUniqueId));
    handle(&mut sim, msg("b", 1, CudaCall::NcclGetUniqueId));
    assert_eq!(
        sim.take_replies(),
        vec![
            Reply { to: thread("a"), body: ReplyBody::UniqueId(id(0)) },
            Reply { to: thread("b"), body: ReplyBody::UniqueId(id(1)) },
        ]
    );
}

#[test]
fn a_communicator_is_there_once_all_ranks_have_come() {
    let mut sim = simulator();
    form(&mut sim, &["a", "b"], 7);
    assert_eq!(sim.take_replies(), vec![sync_reply("a", 1), sync_reply("b", 1)]);
    let group = sim.comm_group(&NcclId(id(7))).unwrap();
    assert_eq!(*group, vec![(host("a"), 0), (host("b"), 1)]);
    assert!(sim.comm_group(&NcclId(id(8))).is_none());
}

#[test]
fn a_split_forms_a_communicator_for_each_color() {
    let mut sim = simulator();
    form(&mut sim, &["a", "b", "c", "d"], 7);
    sim.take_replies();
    let split = |rank: i32, color: i32, key: i32| CudaCall::NcclCommSplit {
        comm: NcclComm { rank, id: id(7) },
        color,
        key,
    };
    for (name, rank, color, key) in
        [("a", 0, 1, 5), ("b", 1, 1, 2), ("c", 2, NCCL_SPLIT_NOCOLOR, 0), ("d", 3, 4, 0)]
    {
        handle(&mut sim, msg(name, 9, split(rank, color, key)));
        nothing_runs(&mut sim);
    }
    let replies = sim.take_replies();
    assert_eq!(replies.len(), 4);
    assert_eq!(replies[0], Reply { to: thread("c"), body: ReplyBody::NoColor });
    let mut told: Vec<(String, i32, i32, u8)> = vec![];
    for r in &replies[1..] {
        match &r.body {
            ReplyBody::Split(s) => {
                assert_eq!(s.sync.end_time, 9);
                told.push((r.to.host.hostname.clone(), s.rank, s.nranks, s.id[0]));
            }
            other => panic!("{other:?}"),
        }
    }
    assert_eq!(
        told,
        vec![
            ("b".to_string(), 0, 2, 0),
            ("a".to_string(), 1, 2, 0),
            ("d".to_string(), 0, 1, 1),
        ]
    );
    let unknown = CudaCall::NcclCommSplit {
        comm: NcclComm { rank: 0, id: id(99) },
        color: 0,
        key: 0,
    };
    handle(&mut sim, msg("a", 10, unknown));
    nothing_runs(&mut sim);
    match sim.take_replies()[0].body {
        ReplyBody::Split(s) => assert_eq!((s.rank, s.nranks, s.id), (0, 0, [128u8; 128])),
        _ => panic!("split"),
    }
}

#[test]
fn ranks_that_are_missing_are_told() {
    let mut sim = simulator();
    let init = |rank: i32, nranks: i32| CudaCall::NcclCommInitRank {
        device: 0,
        rank,
        nranks,
        id: id(7),
    };
    handle(&mut sim, msg("a", 1, init(0, 2)));
    nothing_runs(&mut sim);
    let late = msg("b", 1, init(1, 3));
    assert!(matches!(sim.check(&late), CallCheck::Refused(Refusal::MissingRanks)));
}

fn all_reduce(rank: i32, count: usize) -> CudaCall {
    CudaCall::NcclAllReduce {
        count,
        dtype: NcclDatatype::F32,
        op: NcclReduceOp::Sum,
        comm: NcclComm { rank, id: id(7) },
        stream: STREAM,
    }
}

fn flow() -> Flow {
    Flow { bytes: 16, src: "a".to_string(), dst: "b".to_string() }
}

#[test]
fn a_collective_runs_once_all_ranks_have_joined() {
    let mut sim = simulator();
    let early = msg("a", 1, all_reduce(0, 4));
    assert!(matches!(sim.check(&early), CallCheck::Refused(Refusal::UnknownCommunicator)));
    form(&mut sim, &["a", "b"], 7);
    assert!(ready(&sim, &early));
    sim.handle_cuda_call(early, vec![flow()]);
    assert_eq!(sim.queue().len(), 5);
    assert_eq!(depends(&sim, 0), vec![None]);
    assert_eq!(depends(&sim, 1), vec![Some(0)]);
    assert_eq!(depends(&sim, 2), vec![Some(1)]);
    assert_eq!(depends(&sim, 3), vec![Some(2)]);
    assert_eq!(depends(&sim, 4), vec![Some(3), Some(1)]);
    let other = msg("b", 2, all_reduce(1, 5));
    sim.handle_cuda_call(other, vec![]);
    assert_eq!(sim.queue().len(), 10);
    let second = msg("b", 3, all_reduce(1, 4));
    sim.handle_cuda_call(second, vec![]);
    let ops: Vec<&QueueOp> = (10..sim.queue().len()).map(|i| sim.queue().op(i)).collect();
    assert_eq!(ops.len(), 6);
    assert!(matches!(ops[0], QueueOp::Add { depends_on, .. } if *depends_on == vec![Some(0), Some(9)]));
    assert_eq!(*ops[1], QueueOp::AddDependency { event: 2, on: Some(10) });
    assert!(matches!(ops[2], QueueOp::Add { depends_on, .. } if *depends_on == vec![Some(3), Some(10)]));
    assert!(matches!(
        ops[3],
        QueueOp::Add { depends_on, action: Some(Action::Communication(f, _)), time: 3 }
            if *depends_on == vec![Some(2)] && *f == flow()
    ));
    assert_eq!(*ops[4], QueueOp::AddDependency { event: 3, on: Some(13) });
    assert_eq!(*ops[5], QueueOp::RemoveNoneDependency { event: 0 });
}

#[test]
fn the_matching_of_collectives_is_told() {
    let mut sim = simulator();
    let first = msg("a", 1, all_reduce(0, 4));
    assert!(sim.match_trace(&first).is_empty());
    assert!(sim.match_trace(&msg("a", 1, CudaCall::NcclGetUniqueId)).is_empty());
    form(&mut sim, &["a", "b", "c"], 7);
    let rest = r#""stream":{"device":0,"id":5},"curr_time""#;
    let what = r#""signature":{"op":"all_reduce","count":4,"dtype":"F32","reduce_op":"Sum"}"#;
    let comm = r#""comm_id":"0700000000000000""#;
    assert_eq!(
        sim.match_trace(&first),
        vec![
            format!(
                r#"{{"event":"arrive",{comm},"rank":0,"host":"a","pid":1,{rest}:1,"queue_len":0,{what}}}"#
            ),
            format!(
                r#"{{"event":"new_waiting",{comm},"sequence":0,"rank":0,"host":"a","pid":1,{rest}:1,{what},"waiting_for":[1,2]}}"#
            ),
        ]
    );
    sim.handle_cuda_call(first, vec![flow()]);
    sim.handle_cuda_call(msg("c", 2, all_reduce(2, 4)), vec![]);
    let last = msg("b", -3, all_reduce(1, 4));
    assert_eq!(
        sim.match_trace(&last),
        vec![
            format!(
                r#"{{"event":"arrive",{comm},"rank":1,"host":"b","pid":1,{rest}:-3,"queue_len":1,{what}}}"#
            ),
            format!(
                r#"{{"event":"join",{comm},"sequence":0,"rank":1,"host":"b","pid":1,{rest}:-3,"waiting_index":0,{what},"waiting_for_before":[1],"waiting_for_after":[],"joined_ranks":[0,1,2]}}"#
            ),
            format!(
                r#"{{"event":"complete",{comm},"sequence":0,"rank":1,"curr_time":-3,{what},"joined_ranks":[0,1,2]}}"#
            ),
        ]
    );
    sim.handle_cuda_call(last, vec![]);
    assert_eq!(sim.match_trace(&msg("a", 4, all_reduce(0, 4)))[1].matches(r#""sequence":1"#).count(), 1);
}

fn send(rank: i32, peer: i32) -> CudaCall {
    CudaCall::NcclSend {
        count: 3,
        dtype: NcclDatatype::F16,
        peer,
        comm: NcclComm { rank, id: id(7) },
        stream: STREAM,
    }
}

fn recv(rank: i32, peer: i32) -> CudaCall {
    CudaCall::NcclRecv {
        count: 3,
        dtype: NcclDatatype::F16,
        peer,
        comm: NcclComm { rank, id: id(7) },
        stream: STREAM,
    }
}

#[test]
fn a_send_and_a_receive_find_each_other() {
    let mut sim = simulator();
    handle(&mut sim, msg("a", 5, send(0, 1)));
    assert_eq!(sim.queue().len(), 3);
    assert_eq!(depends(&sim, 0), vec![None]);
    assert_eq!(depends(&sim, 1), vec![Some(0)]);
    assert_eq!(depends(&sim, 2), vec![Some(1), Some(1)]);
    handle(&mut sim, msg("b", 4, recv(1, 0)));
    assert_eq!(sim.queue().len(), 11);
    match sim.queue().op(6) {
        QueueOp::Add { depends_on, action: Some(Action::Communication(f, _)), time } => {
            assert_eq!(*depends_on, vec![Some(1), Some(4)]);
            assert_eq!((f.bytes, f.src.as_str(), f.dst.as_str(), *time), (6, "a", "b", 5));
        }
        other => panic!("{other:?}"),
    }
    assert_eq!(*sim.queue().op(7), QueueOp::AddDependency { event: 2, on: Some(6) });
    assert_eq!(*sim.queue().op(8), QueueOp::AddDependency { event: 5, on: Some(6) });
    assert_eq!(*sim.queue().op(9), QueueOp::RemoveNoneDependency { event: 0 });
    assert_eq!(*sim.queue().op(10), QueueOp::RemoveNoneDependency { event: 3 });
}

#[test]
fn transfers_of_a_group_run_beside_each_other() {
    let mut sim = simulator();
    let group = |calls: Vec<CudaCall>| CudaCall::NcclP2pGroup { calls };
    handle(&mut sim, msg("a", 1, group(vec![send(0, 1), recv(0, 1)])));
    assert_eq!(sim.queue().len(), 10);
    assert_eq!(depends(&sim, 3), vec![Some(1), Some(2)]);
    assert_eq!(depends(&sim, 6), vec![Some(1), Some(5)]);
    assert_eq!(depends(&sim, 8), vec![Some(1), Some(4), Some(7), Some(1)]);
    assert_eq!(*sim.queue().op(9), QueueOp::RemoveNoneDependency { event: 0 });
    handle(&mut sim, msg("b", 2, group(vec![send(1, 0), recv(1, 0)])));
    let flows = (0..sim.queue().len())
        .filter(|i| {
            matches!(
                sim.queue().op(*i),
                QueueOp::Add { action: Some(Action::Communication(_, _)), .. }
            )
        })
        .count();
    assert_eq!(flows, 2);
}

#[test]
fn buffers_without_a_size_are_refused() {
    let sim = simulator();
    let big = CudaCall::NcclSend {
        count: usize::MAX,
        dtype: NcclDatatype::F64,
        peer: 1,
        comm: NcclComm { rank: 0, id: id(7) },
        stream: STREAM,
    };
    assert!(matches!(sim.check(&msg("a", 1, big)), CallCheck::Refused(Refusal::TooLarge)));
}

#[test]
fn exits_are_noted() {
    let mut sim = simulator();
    assert_eq!(sim.exit_time(&host("a")), None);
    sim.handle_exit(thread("a"), 77);
    assert_eq!(sim.exit_time(&host("a")), Some(77));
}

#[test]
fn nothing_is_measured_in_replay() {
    let mut db = PerfDb::default();
    db.compute.insert(neg(1), micros(10));
    let (cuda, torch) = replayed(db);
    let mut sim = Simulator::new(cuda, torch, true);
    assert!(sim.knows_torch_call(&neg(1)) && sim.knows_torch_call(&neg(2)));
    sim.handle_torch_call(operator(0, 1));
    sim.handle_torch_call(operator(1, 2));
    let copy = CudaCall::CudaMemcpyAsync {
        size: 64,
        kind: CudaMemcpyKind::HostToDevice,
        stream: STREAM,
    };
    handle(&mut sim, msg("a", 2, copy));
    let time = |i: usize| match sim.queue().op(i) {
        QueueOp::Add { action: Some(Action::Computation(_, micros, _)), .. } => *micros,
        other => panic!("{other:?}"),
    };
    assert_eq!((time(0), time(1), time(2)), (10, 0, 0));
    assert_eq!(*sim.torch_estimator().missing(), vec![neg(2)]);
    assert_eq!(
        *sim.cuda_estimator().missing_memcpy(),
        vec![(CudaMemcpyKind::HostToDevice, 64)]
    );
}

#[test]
fn operations_only_name_events_that_were_added() {
    let mut sim = simulator();
    form(&mut sim, &["a", "b"], 7);
    sim.handle_cuda_call(msg("a", 1, all_reduce(0, 4)), vec![flow(), flow()]);
    handle(&mut sim, msg("a", 2, send(0, 1)));
    handle(&mut sim, msg("b", 2, recv(1, 0)));
    sim.handle_cuda_call(msg("b", 3, all_reduce(1, 4)), vec![]);
    let group = CudaCall::NcclP2pGroup { calls: vec![send(0, 1), CudaCall::NcclGetUniqueId] };
    handle(&mut sim, msg("a", 4, group));
    handle(&mut sim, msg("a", 5, CudaCall::CudaDeviceSynchronize(0)));
    let added = |e: &usize, before: usize| {
        *e < before && matches!(sim.queue().op(*e), QueueOp::Add { .. })
    };
    for i in 0..sim.queue().len() {
        match sim.queue().op(i) {
            QueueOp::Add { depends_on, .. } => {
                assert!(depends_on.iter().flatten().all(|e| added(e, i)))
            }
            QueueOp::AddDependency { event, on } => {
                assert!(added(event, i) && on.iter().all(|e| added(e, i)))
            }
            QueueOp::RemoveNoneDependency { event } => {
                assert!(added(event, i) && depends(&sim, *event).contains(&None))
            }
        }
    }
}
