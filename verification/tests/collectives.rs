use phantora::cuda_call::{NcclDatatype, NcclReduceOp};
use phantora::json::json_text;
use phantora::nccl_id::{incr_nccl_id, short_nccl_id, NcclId};
use phantora::simulator::collectives::{can_join_collective_waiting, NcclCollectiveSignature};
use phantora::simulator::ranks::RankSet;
use phantora::simulator::trace::{match_trace_flag, signature_json};
use std::collections::HashSet;

fn joined_ranks(ranks: &[i32]) -> HashSet<i32> {
    ranks.iter().copied().collect()
}

#[test]
fn collective_waiting_requires_matching_allgather_signature() {
    let waiting = NcclCollectiveSignature::AllGather { count: 512, dtype: NcclDatatype::Bf16 };

    assert!(can_join_collective_waiting(
        waiting,
        &joined_ranks(&[0, 1]),
        2,
        NcclCollectiveSignature::AllGather { count: 512, dtype: NcclDatatype::Bf16 },
    ));
    assert!(!can_join_collective_waiting(waiting, &joined_ranks(&[0, 1]), 1, waiting));
    assert!(!can_join_collective_waiting(
        waiting,
        &joined_ranks(&[0, 1]),
        2,
        NcclCollectiveSignature::AllGather { count: 1024, dtype: NcclDatatype::Bf16 },
    ));
    assert!(!can_join_collective_waiting(
        waiting,
        &joined_ranks(&[0, 1]),
        2,
        NcclCollectiveSignature::AllGather { count: 512, dtype: NcclDatatype::F32 },
    ));
}

#[test]
fn collective_waiting_distinguishes_other_collective_metadata() {
    assert!(!can_join_collective_waiting(
        NcclCollectiveSignature::Bcast { count: 1, dtype: NcclDatatype::I32, root: 0 },
        &joined_ranks(&[0]),
        1,
        NcclCollectiveSignature::Bcast { count: 1, dtype: NcclDatatype::I32, root: 1 },
    ));
    assert!(!can_join_collective_waiting(
        NcclCollectiveSignature::AllReduce {
            count: 8,
            dtype: NcclDatatype::F32,
            op: NcclReduceOp::Sum,
        },
        &joined_ranks(&[]),
        0,
        NcclCollectiveSignature::AllReduce {
            count: 8,
            dtype: NcclDatatype::F32,
            op: NcclReduceOp::Max,
        },
    ));
    assert!(!can_join_collective_waiting(
        NcclCollectiveSignature::ReduceScatter {
            count: 16,
            dtype: NcclDatatype::Bf16,
            op: NcclReduceOp::Sum,
        },
        &joined_ranks(&[]),
        0,
        NcclCollectiveSignature::ReduceScatter {
            count: 32,
            dtype: NcclDatatype::Bf16,
            op: NcclReduceOp::Sum,
        },
    ));
}

#[test]
fn signatures_are_told_as_json() {
    let told = |s: NcclCollectiveSignature| json_text(signature_json(s));
    assert_eq!(
        told(NcclCollectiveSignature::Bcast { count: 3, dtype: NcclDatatype::I32, root: -1 }),
        r#"{"op":"bcast","count":3,"dtype":"I32","root":-1}"#
    );
    assert_eq!(
        told(NcclCollectiveSignature::Bcast { count: 3, dtype: NcclDatatype::I32, root: 2 }),
        r#"{"op":"bcast","count":3,"dtype":"I32","root":2}"#
    );
    assert_eq!(
        told(NcclCollectiveSignature::AllReduce {
            count: 8,
            dtype: NcclDatatype::F32,
            op: NcclReduceOp::Sum,
        }),
        r#"{"op":"all_reduce","count":8,"dtype":"F32","reduce_op":"Sum"}"#
    );
    assert_eq!(
        told(NcclCollectiveSignature::AllGather { count: 512, dtype: NcclDatatype::Bf16 }),
        r#"{"op":"all_gather","count":512,"dtype":"Bf16"}"#
    );
    assert_eq!(
        told(NcclCollectiveSignature::ReduceScatter {
            count: 0,
            dtype: NcclDatatype::U8,
            op: NcclReduceOp::Avg,
        }),
        r#"{"op":"reduce_scatter","count":0,"dtype":"U8","reduce_op":"Avg"}"#
    );
}

#[test]
fn the_match_trace_is_asked_for_in_words() {
    for yes in ["1", "true", "TRUE", "Yes", "oN"] {
        assert!(match_trace_flag(yes), "{yes}");
    }
    for no in ["", "0", "false", "onn", "ye", "11"] {
        assert!(!match_trace_flag(no), "{no}");
    }
}

#[test]
fn ids_count_up_and_start_over() {
    let mut id = [0u8; 128];
    assert_eq!(incr_nccl_id(&mut id), [0u8; 128]);
    assert_eq!(id[0], 1);
    id[0] = 255;
    let before = id;
    assert_eq!(incr_nccl_id(&mut id), before);
    assert_eq!(&id[..3], &[0, 1, 0]);
    let mut last = [255u8; 128];
    assert_eq!(incr_nccl_id(&mut last), [255u8; 128]);
    assert_eq!(last, [0u8; 128]);
}

#[test]
fn ids_are_shortened_to_eight_bytes() {
    let mut id = [0u8; 128];
    for (i, b) in [0x00, 0x0f, 0xa0, 0xff, 0x12, 0x34, 0x56, 0x78, 0x9a].iter().enumerate() {
        id[i] = *b;
    }
    assert_eq!(short_nccl_id(&NcclId(id)), "000fa0ff12345678");
}

#[test]
fn ranks_are_waited_for_until_all_have_come() {
    let mut ranks = RankSet::others(4, 2);
    assert!(!ranks.is_empty());
    ranks.remove(0);
    ranks.remove(3);
    assert!(ranks.none_but(1));
    ranks.remove(1);
    assert!(ranks.is_empty());
    assert!(RankSet::others(1, 0).is_empty());
}

#[test]
fn elements_have_sizes() {
    assert_eq!(NcclDatatype::U8.size(), 1);
    assert_eq!(NcclDatatype::Bf16.size(), 2);
    assert_eq!(NcclDatatype::F32.size(), 4);
    assert_eq!(NcclDatatype::I64.size(), 8);
}
