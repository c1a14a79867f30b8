use phantora::cuda_call::CudaMemcpyKind;
use phantora::cuda_estimate::CudaEstimator;
use phantora::duration::Duration;
use phantora::lines::{join_texts, split_str};
use phantora::perf_db::rows::MemcpyRow;
use phantora::perf_db::{FlashAttnKey, PerfDb};
use phantora::recording::{missing_db, recorded, replayed, start_recording};
use phantora::sort::sort_rows;
use phantora::table::Table;
use phantora::text::{
    flag_text, parse_flag, parse_i32, parse_unsigned, same_text, signed_text, text_not_after,
    unsigned_text,
};
use phantora::torch_call::{Kind, TensorInfo, TorchArg, TorchCallInfo, TorchOp};
use phantora::torch_estimate::TorchEstimator;

fn nanos(n: u64) -> Duration {
    Duration::from_nanos(n)
}

fn neg(size: i64) -> TorchCallInfo {
    TorchCallInfo {
        op: TorchOp::Neg,
        args: vec![TorchArg::Tensor(TensorInfo { shape: vec![size], dtype: Kind::Float })],
    }
}

fn flash(head_size: i32) -> FlashAttnKey {
    FlashAttnKey {
        is_fwd: true,
        is_bf16: true,
        batch_size: 1,
        seqlen_q: 1,
        seqlen_k: 1,
        num_heads: 1,
        num_heads_k: 1,
        head_size,
        window_size_left: -1,
        window_size_right: -1,
        is_causal: false,
    }
}

fn ask_flash(e: &mut CudaEstimator, k: FlashAttnKey) -> Option<Duration> {
    e.flash_attn(
        k.is_fwd,
        k.is_bf16,
        k.batch_size,
        k.seqlen_q,
        k.seqlen_k,
        k.num_heads,
        k.num_heads_k,
        k.head_size,
        k.window_size_left,
        k.window_size_right,
        k.is_causal,
    )
}

fn db() -> PerfDb {
    let mut db = PerfDb::default();
    db.gpu_name = "L40S".to_string();
    db.compute.insert(neg(1), nanos(10));
    db.memcpy.insert((CudaMemcpyKind::HostToHost, 4), nanos(20));
    db.flash_attn.insert(flash(64), nanos(30));
    db.sequence.insert(5, vec![nanos(1), nanos(2)]);
    db
}

#[test]
fn replay_answers_from_the_database() {
    let (mut cuda, mut torch) = replayed(db());
    assert_eq!(torch.estimate(&neg(1)), Some(nanos(10)));
    assert_eq!(cuda.memcpy(CudaMemcpyKind::HostToHost, 4), Some(nanos(20)));
    assert_eq!(ask_flash(&mut cuda, flash(64)), Some(nanos(30)));
    assert_eq!(torch.sequence_len(5), Some(2));
    assert!(torch.is_replay());
    assert_eq!(cuda.gpu_name(), "");
    assert!(missing_db(&cuda, &torch, "L40S".to_string()).is_none());
}

#[test]
fn what_is_missing_is_noted_once_and_charged_no_time() {
    let (mut cuda, mut torch) = replayed(db());
    for _ in 0..3 {
        assert_eq!(torch.estimate(&neg(2)), Some(nanos(0)));
        assert_eq!(cuda.memcpy(CudaMemcpyKind::HostToHost, 5), Some(nanos(0)));
        assert_eq!(ask_flash(&mut cuda, flash(128)), Some(nanos(0)));
    }
    assert_eq!(*torch.missing(), vec![neg(2)]);
    assert_eq!(*cuda.missing_memcpy(), vec![(CudaMemcpyKind::HostToHost, 5)]);
    assert_eq!(*cuda.missing_flash(), vec![flash(128)]);
    let missing = missing_db(&cuda, &torch, "L40S".to_string()).unwrap();
    assert_eq!(missing.gpu_name, "L40S");
    assert_eq!((missing.compute.len(), missing.sequence.len()), (1, 0));
    assert_eq!(missing.compute.get(&neg(2)), Some(&nanos(0)));
    assert_eq!(missing.memcpy.get(&(CudaMemcpyKind::HostToHost, 5)), Some(&nanos(0)));
    assert_eq!(missing.flash_attn.get(&flash(128)), Some(&nanos(0)));
}

#[test]
fn what_is_not_known_has_to_be_measured() {
    let mut cuda = CudaEstimator::new("L40S".to_string());
    let mut torch = TorchEstimator::new();
    assert_eq!(torch.estimate(&neg(1)), None);
    assert_eq!(cuda.memcpy(CudaMemcpyKind::HostToHost, 4), None);
    assert_eq!(ask_flash(&mut cuda, flash(64)), None);
    assert!(!cuda.has_memcpy(CudaMemcpyKind::HostToHost, 4));
    torch.record(&neg(1), nanos(7));
    assert_eq!(torch.estimate(&neg(1)), Some(nanos(7)));
    assert!(torch.has_time(&neg(1)) && !torch.has_time(&neg(2)));
    assert!(torch.missing().is_empty());
    assert_eq!(cuda.gpu_name(), "L40S");
}

#[test]
fn recording_goes_on_where_a_database_ends() {
    let mut cuda = CudaEstimator::new("L40S".to_string());
    let mut torch = TorchEstimator::new();
    assert!(start_recording(db(), &mut cuda, &mut torch));
    assert_eq!(torch.estimate(&neg(1)), Some(nanos(10)));
    torch.record(&neg(9), nanos(90));
    let after = recorded(&cuda, &torch);
    assert_eq!(after.gpu_name, "L40S");
    assert_eq!(after.compute.len(), 2);
    assert_eq!(after.compute.get(&neg(9)), Some(&nanos(90)));
    assert_eq!(after.memcpy.get(&(CudaMemcpyKind::HostToHost, 4)), Some(&nanos(20)));
    assert_eq!(after.flash_attn.get(&flash(64)), Some(&nanos(30)));
    assert_eq!(after.sequence.get(&5), Some(&vec![nanos(1), nanos(2)]));
}

#[test]
fn a_database_of_another_gpu_is_refused() {
    let mut cuda = CudaEstimator::new("H100".to_string());
    let mut torch = TorchEstimator::new();
    assert!(!start_recording(db(), &mut cuda, &mut torch));
    assert_eq!(torch.estimate(&neg(1)), None);
    let mut unnamed = db();
    unnamed.gpu_name = String::new();
    assert!(start_recording(unnamed, &mut cuda, &mut torch));
    assert_eq!(torch.estimate(&neg(1)), Some(nanos(10)));
}

#[test]
fn replayed_runs_fall_back_to_single_calls() {
    let (_, mut torch) = replayed(db());
    let call = |size: i64| phantora::torch_call::TorchCall {
        id: phantora::cuda_call::ResponseId {
            host: phantora::cuda_call::HostId { hostname: "a".to_string(), pid: 1 },
            tid: 1,
        },
        stream: phantora::cuda_call::CudaStream { device: 0, id: 0 },
        time: 0,
        info: neg(size),
    };
    let run = vec![call(1), call(3), call(1)];
    assert_eq!(torch.estimate_sequence(&run), Some(vec![nanos(10), nanos(0), nanos(10)]));
    assert_eq!(*torch.missing(), vec![neg(3)]);
    torch.record_sequence(&vec![neg(1), neg(3), neg(1)], vec![nanos(4), nanos(5), nanos(6)]);
    assert_eq!(torch.estimate_sequence(&run), Some(vec![nanos(4), nanos(5), nanos(6)]));
    assert_eq!(TorchEstimator::new().estimate_sequence(&run), None);
}

#[test]
fn tables_keep_one_row_for_each_key() {
    let mut t: Table<u64, Duration> = Table::new();
    t.insert(3, nanos(1));
    t.insert(1, nanos(2));
    t.insert(3, nanos(3));
    assert_eq!(t.len(), 2);
    assert_eq!((*t.key_at(0), *t.key_at(1)), (3, 1));
    assert_eq!(t.get(&3), Some(&nanos(3)));
    let mut other: Table<u64, Duration> = Table::new();
    other.insert(1, nanos(4));
    other.insert(8, nanos(5));
    t.extend(other);
    assert_eq!((t.get(&1), t.get(&8), t.len()), (Some(&nanos(4)), Some(&nanos(5)), 3));
    assert_eq!(t.remove(&3), Some(nanos(3)));
    assert_eq!(t.remove(&3), None);
    assert!(!t.contains_key(&3));
    if let Some(v) = t.get_mut(&8) {
        *v = nanos(6);
    }
    assert_eq!(t.get(&8), Some(&nanos(6)));
}

#[test]
fn rows_are_sorted_by_name_and_size() {
    let row = |kind: CudaMemcpyKind, size: usize| MemcpyRow { kind, size, nanos: 0 };
    let sorted = sort_rows(vec![
        row(CudaMemcpyKind::HostToHost, 2),
        row(CudaMemcpyKind::HostToHost, 1),
        row(CudaMemcpyKind::DeviceToPinnedHost, 9),
        row(CudaMemcpyKind::PinnedHostToDevice, 0),
    ]);
    let sizes: Vec<usize> = sorted.iter().map(|r| r.size).collect();
    assert_eq!(sizes, vec![9, 1, 2, 0]);
}

#[test]
fn numbers_and_flags_are_read_and_written() {
    assert_eq!(unsigned_text(0), "0");
    assert_eq!(unsigned_text(u64::MAX), "18446744073709551615");
    assert_eq!(signed_text(i32::MIN), "-2147483648");
    assert_eq!(parse_unsigned("+7", 10), Some(7));
    assert_eq!(parse_unsigned("11", 10), None);
    assert_eq!(parse_unsigned("", 10), None);
    assert_eq!(parse_unsigned("+", 10), None);
    assert_eq!(parse_unsigned("-1", 10), None);
    assert_eq!(parse_i32("-2147483648"), Some(i32::MIN));
    assert_eq!(parse_i32("2147483648"), None);
    assert_eq!((parse_flag("true"), parse_flag("True")), (Some(true), None));
    assert_eq!(flag_text(false), "false");
}

#[test]
fn texts_are_split_joined_and_compared() {
    assert_eq!(split_str("a;;b", ';'), vec!["a", "", "b"]);
    assert_eq!(split_str("", ';'), vec![""]);
    assert_eq!(join_texts(&vec!["a".to_string(), "b".to_string()], ';'), "a;b");
    assert!(text_not_after("ab", "abc") && !text_not_after("b", "abc"));
    assert!(text_not_after("", "") && same_text("\u{e9}", "\u{e9}"));
    assert_eq!(Duration::from_nanos(1_999).as_micros(), 1);
}
