use phantora::cuda_call::CudaMemcpyKind;
use phantora::cuda_estimate::{
    flash_attn_operands, replay_memcpy, round_multiple, CopyDirection, Memory,
};
use phantora::kernel::{
    is_measurable, kept_tensors, Kept, CALL_WARMUPS, SEQUENCE_WARMUPS,
};
use phantora::perf_db::FlashAttnKey;
use phantora::tensor_cache::{
    is_countable, kind_range, total_size, KindRange, TensorCache, CACHED_TENSORS,
};
use phantora::torch_call::{Kind, TensorInfo, TorchArg, TorchCallInfo, TorchOp};
use phantora::torch_op::{is_well_typed, kind_from_name, op_from_name};

fn ti(shape: &[i64], dtype: Kind) -> TensorInfo {
    TensorInfo { shape: shape.to_vec(), dtype }
}

fn t(shape: &[i64], dtype: Kind) -> TorchArg {
    TorchArg::Tensor(ti(shape, dtype))
}

#[test]
fn tensors_of_one_size_share_a_slot() {
    let mut cache = TensorCache::new();
    let a = cache.allocate(&ti(&[2, 3], Kind::Float));
    assert_eq!((a.slot, a.fresh), (0, Some(KindRange::Float)));
    let b = cache.allocate(&ti(&[6], Kind::Float));
    assert_eq!((b.slot, b.fresh), (0, None));
    assert_eq!(b.info, ti(&[6], Kind::Float));
    let c = cache.allocate(&ti(&[6], Kind::Bool));
    assert_eq!((c.slot, c.fresh), (1, Some(KindRange::Bool)));
}

#[test]
fn the_tensor_used_longest_ago_is_given_up() {
    let mut cache = TensorCache::new();
    for n in 0..CACHED_TENSORS {
        assert_eq!(cache.allocate(&ti(&[n as i64], Kind::Int64)).slot, n);
    }
    assert_eq!(cache.allocate(&ti(&[0], Kind::Int64)).fresh, None);
    let fresh = cache.allocate(&ti(&[1000], Kind::Int64));
    assert_eq!((fresh.slot, fresh.fresh), (1, Some(KindRange::Integer)));
    let again = cache.allocate(&ti(&[1], Kind::Int64));
    assert_eq!((again.slot, again.fresh), (2, Some(KindRange::Integer)));
    assert_eq!(cache.allocate(&ti(&[0], Kind::Int64)).fresh, None);
}

#[test]
fn results_on_the_first_gpu_are_kept() {
    let mut cache = TensorCache::new();
    assert_eq!(cache.cache(&ti(&[4], Kind::Half), Some(1)), None);
    assert_eq!(cache.cache(&ti(&[4], Kind::Half), None), None);
    assert_eq!(cache.cache(&ti(&[4], Kind::Half), Some(0)), Some(0));
    assert_eq!(cache.cache(&ti(&[2, 2], Kind::Half), Some(0)), Some(0));
    assert_eq!(cache.allocate(&ti(&[4], Kind::Half)).fresh, None);
}

#[test]
fn elements_are_counted() {
    assert_eq!(total_size(&vec![]), 1);
    assert_eq!(total_size(&vec![2, 3, 4]), 24);
    assert_eq!(total_size(&vec![2, 0, 4]), 0);
    assert!(is_countable(&vec![i64::MAX, 1]));
    assert!(!is_countable(&vec![i64::MAX, 2]));
    assert!(!is_countable(&vec![i64::MAX, 2, 0]));
}

#[test]
fn element_types_have_ranges() {
    assert_eq!(kind_range(Kind::Bool), KindRange::Bool);
    assert_eq!(kind_range(Kind::UInt64), KindRange::Integer);
    assert_eq!(kind_range(Kind::Uint8), KindRange::Integer);
    assert_eq!(kind_range(Kind::BFloat16), KindRange::Float);
    assert_eq!(kind_range(Kind::QInt8), KindRange::Float);
}

#[test]
fn operands_are_taken_in_the_order_of_the_operator() {
    let mut cache = TensorCache::new();
    let call = TorchCallInfo {
        op: TorchOp::ForeachAddCMul_,
        args: vec![
            TorchArg::List(vec![ti(&[1], Kind::Float), ti(&[2], Kind::Float)]),
            TorchArg::List(vec![ti(&[3], Kind::Float)]),
            TorchArg::List(vec![ti(&[4], Kind::Float)]),
        ],
    };
    assert!(is_measurable(&call));
    let kernel = cache.prepare(&call);
    let taken: Vec<(usize, usize)> =
        kernel.operands.iter().map(|p| (p.arg, p.operand.slot)).collect();
    assert_eq!(taken, vec![(1, 0), (2, 1), (0, 2), (0, 3)]);
    assert!(kernel.keep.is_empty() && !kernel.autocast && kernel.bias_gradient.is_none());
}

#[test]
fn linear_maps_in_full_precision_are_cast() {
    let mut cache = TensorCache::new();
    let linear = |dtype: Kind, bias: Option<TensorInfo>| TorchCallInfo {
        op: TorchOp::Linear,
        args: vec![t(&[2, 3], dtype), t(&[4, 3], dtype), TorchArg::Optional(bias)],
    };
    let full = cache.prepare(&linear(Kind::Float, None));
    assert!(full.autocast);
    assert_eq!(full.operands.len(), 2);
    assert_eq!(full.keep, vec![Kept::Result(0)]);
    let half = cache.prepare(&linear(Kind::Half, Some(ti(&[4], Kind::Half))));
    assert!(!half.autocast);
    assert_eq!(half.operands.len(), 3);
    assert_eq!(half.operands[2].arg, 2);
    let double = cache.prepare(&TorchCallInfo {
        op: TorchOp::MM,
        args: vec![t(&[2, 3], Kind::Double), t(&[3, 2], Kind::Double)],
    });
    assert!(!double.autocast);
    assert_eq!(double.operands[1].operand.fresh, None);
}

#[test]
fn a_convolution_backward_keeps_the_gradient_by_its_bias() {
    let mut cache = TensorCache::new();
    let call = TorchCallInfo {
        op: TorchOp::Conv2dBackward,
        args: vec![
            t(&[1, 8, 4, 4], Kind::Half),
            t(&[1, 3, 6, 6], Kind::Half),
            t(&[8, 3, 3, 3], Kind::Half),
            TorchArg::Ints(vec![3, 3]),
            TorchArg::Ints(vec![1, 1]),
            TorchArg::Ints(vec![0, 0]),
        ],
    };
    let kernel = cache.prepare(&call);
    let order: Vec<usize> = kernel.operands.iter().map(|p| p.arg).collect();
    assert_eq!(order, vec![1, 2, 0]);
    assert_eq!(kernel.bias_gradient, Some(ti(&[8], Kind::Half)));
    assert_eq!(kernel.keep, vec![Kept::BiasGradient]);
    assert_eq!(kept_tensors(TorchOp::SDPABackward), vec![Kept::Operand(0), Kept::Operand(4)]);
    assert_eq!(kept_tensors(TorchOp::NativeDropout), vec![Kept::Result(0), Kept::Result(1)]);
    assert!(kept_tensors(TorchOp::SDPAEfficientBackward).is_empty());
}

#[test]
fn calls_that_cannot_be_measured_are_told() {
    let neg = |shape: &[i64]| TorchCallInfo {
        op: TorchOp::Neg,
        args: vec![t(shape, Kind::Float)],
    };
    assert!(is_measurable(&neg(&[1, 2])));
    assert!(!is_measurable(&neg(&[i64::MAX, 3])));
    assert!(!is_measurable(&TorchCallInfo { op: TorchOp::Neg, args: vec![] }));
    assert!(!is_well_typed(&TorchCallInfo {
        op: TorchOp::Neg,
        args: vec![TorchArg::Int(1)],
    }));
    let scalar_weight = TorchCallInfo {
        op: TorchOp::Conv2dBackward,
        args: vec![
            t(&[1], Kind::Half),
            t(&[1], Kind::Half),
            t(&[], Kind::Half),
            TorchArg::Ints(vec![]),
            TorchArg::Ints(vec![]),
            TorchArg::Ints(vec![]),
        ],
    };
    assert!(!is_measurable(&scalar_weight));
    assert_eq!((CALL_WARMUPS, SEQUENCE_WARMUPS), (2, 1));
}

#[test]
fn copies_are_measured_between_memories() {
    let plan = replay_memcpy(CudaMemcpyKind::PinnedHostToDevice);
    assert_eq!((plan.from, plan.to), (Memory::PinnedHost, Memory::Device));
    assert_eq!(plan.direction, CopyDirection::HostToDevice);
    let back = replay_memcpy(CudaMemcpyKind::DeviceToPinnedHost);
    assert_eq!((back.from, back.to), (Memory::Device, Memory::PinnedHost));
    assert_eq!(back.direction, CopyDirection::DeviceToHost);
    assert_eq!(replay_memcpy(CudaMemcpyKind::HostToHost).direction, CopyDirection::HostToHost);
    assert_eq!(
        replay_memcpy(CudaMemcpyKind::DeviceToDevice).direction,
        CopyDirection::DeviceToDevice
    );
}

#[test]
fn sizes_are_rounded_to_multiples() {
    assert_eq!(round_multiple(1, 8), 8);
    assert_eq!(round_multiple(8, 8), 8);
    assert_eq!(round_multiple(9, 8), 16);
    assert_eq!(round_multiple(0, 8), 0);
    assert_eq!(round_multiple(-20, 8), -8);
    assert_eq!(round_multiple(i32::MAX - 7, 8), i32::MAX - 7);
}

#[test]
fn flash_attention_runs_on_padded_heads() {
    let mut key = FlashAttnKey {
        is_fwd: true,
        is_bf16: true,
        batch_size: 2,
        seqlen_q: 10,
        seqlen_k: 12,
        num_heads: 4,
        num_heads_k: 1,
        head_size: 60,
        window_size_left: -1,
        window_size_right: -1,
        is_causal: false,
    };
    let forward = flash_attn_operands(&key);
    assert_eq!(forward.len(), 3);
    assert_eq!(forward[0].shape, vec![2, 10, 4, 64]);
    assert_eq!(forward[2].shape, vec![2, 12, 1, 64]);
    assert_eq!(forward[0].dtype, Kind::BFloat16);
    key.is_fwd = false;
    key.is_bf16 = false;
    let backward = flash_attn_operands(&key);
    assert_eq!(backward.len(), 6);
    assert_eq!(backward[0].shape, vec![2, 10, 4, 64]);
    assert_eq!(backward[1].shape, vec![2, 10, 4, 60]);
    assert_eq!(backward[3].shape, vec![2, 12, 1, 60]);
    assert_eq!(backward[5].shape, vec![2, 4, 10]);
    assert_eq!((backward[4].dtype, backward[5].dtype), (Kind::Half, Kind::Float));
}

#[test]
fn operators_and_element_types_have_names() {
    assert_eq!(op_from_name("ForeachAddCDiv_"), Some(TorchOp::ForeachAddCDiv_));
    assert_eq!(TorchOp::SDPAEfficientBackward.name(), "SDPAEfficientBackward");
    assert_eq!(op_from_name("foreach"), None);
    assert_eq!(kind_from_name("Float8e4m3fn"), Some(Kind::Float8e4m3fn));
    assert_eq!(kind_from_name("float"), None);
    assert_eq!(TorchOp::SDPA.field_names().unwrap()[3], "mask");
}
