//! Runs of calls are told apart by the bytes that enter their hashes.

use crate::torch_call::{
    arg_bytes, args_bytes, call_bytes, call_infos, info_views, int_bytes, ints_bytes,
    sequence_hash, tensor_bytes, tensors_bytes, ArgView, CallView, Kind, TensorView, TorchCall,
    TorchCallInfo, TorchOp,
};
use std::collections::hash_map::DefaultHasher;
use vstd::bytes::{lemma_auto_spec_u64_to_from_le_bytes, spec_u64_from_le_bytes};
use vstd::prelude::*;
use vstd::std_specs::hash::DefaultHasherAdditionalSpecFns;

verus! {

/// Whether the number of items of a list can be written in a hash.
pub open spec fn counted(n: nat) -> bool {
    n <= i64::MAX
}

/// Whether the lengths of a tensor's shape can be written in a hash.
pub open spec fn tensor_counted(t: TensorView) -> bool {
    counted(t.shape.len())
}

/// Whether the lengths of the lists of an argument can be written in a hash. Those of
/// lists in memory can.
pub open spec fn arg_counted(a: ArgView) -> bool {
    match a {
        ArgView::Tensor(t) => tensor_counted(t),
        ArgView::Optional(Some(t)) => tensor_counted(t),
        ArgView::List(l) => counted(l.len()) && forall|i: int|
            0 <= i < l.len() ==> tensor_counted(#[trigger] l[i]),
        ArgView::Ints(l) => counted(l.len()),
        _ => true,
    }
}

/// Whether the lengths of all lists of a call can be written in a hash.
pub open spec fn call_counted(c: CallView) -> bool {
    forall|i: int| 0 <= i < c.args.len() ==> arg_counted(#[trigger] c.args[i])
}

/// Different element types have different numbers, and so have different operators.
pub proof fn law_numbers_distinct(a: Kind, b: Kind, x: TorchOp, y: TorchOp)
    ensures
        a.code() == b.code() ==> a == b,
        x.code() == y.code() ==> x == y,
{
}

proof fn lemma_int(a: i64, b: i64)
    ensures
        int_bytes(a).len() == 8,
        int_bytes(a) == int_bytes(b) ==> a == b,
{
    lemma_auto_spec_u64_to_from_le_bytes();
    assert(spec_u64_from_le_bytes(int_bytes(a)) == a as u64);
    assert(spec_u64_from_le_bytes(int_bytes(b)) == b as u64);
    assert(a as u64 == b as u64 ==> a == b) by (bit_vector);
}

/// What stands behind two texts of equal length is equal where the whole is.
proof fn lemma_same_front(a: Seq<u8>, x: Seq<u8>, b: Seq<u8>, y: Seq<u8>)
    requires
        a + x == b + y,
        a.len() == b.len(),
    ensures
        a == b,
        x == y,
{
    let s = a + x;
    assert(s.take(a.len() as int) =~= a);
    assert((b + y).take(b.len() as int) =~= b);
    assert(s.skip(a.len() as int) =~= x);
    assert((b + y).skip(b.len() as int) =~= y);
}

proof fn lemma_int_front(a: i64, x: Seq<u8>, b: i64, y: Seq<u8>)
    requires
        int_bytes(a) + x == int_bytes(b) + y,
    ensures
        a == b,
        x == y,
{
    lemma_int(a, b);
    lemma_int(b, a);
    lemma_same_front(int_bytes(a), x, int_bytes(b), y);
}

proof fn lemma_ints(a: Seq<i64>, x: Seq<u8>, b: Seq<i64>, y: Seq<u8>)
    requires
        a.len() == b.len(),
        ints_bytes(a) + x == ints_bytes(b) + y,
    ensures
        a == b,
        x == y,
    decreases a.len(),
{
    if a.len() == 0 {
        assert(ints_bytes(a) + x =~= x);
        assert(ints_bytes(b) + y =~= y);
        assert(a =~= b);
    } else {
        let fa = a.drop_last();
        let fb = b.drop_last();
        let xa = int_bytes(a.last()) + x;
        let yb = int_bytes(b.last()) + y;
        assert(ints_bytes(a) + x =~= ints_bytes(fa) + xa);
        assert(ints_bytes(b) + y =~= ints_bytes(fb) + yb);
        lemma_ints(fa, xa, fb, yb);
        lemma_int_front(a.last(), x, b.last(), y);
        assert(a =~= fa.push(a.last()));
        assert(b =~= fb.push(b.last()));
    }
}

proof fn lemma_counted(a: nat, b: nat)
    requires
        counted(a),
        counted(b),
        a as i64 == b as i64,
    ensures
        a == b,
{
}

proof fn lemma_tensor(a: TensorView, x: Seq<u8>, b: TensorView, y: Seq<u8>)
    requires
        tensor_counted(a),
        tensor_counted(b),
        tensor_bytes(a) + x == tensor_bytes(b) + y,
    ensures
        a == b,
        x == y,
{
    let ra = ints_bytes(a.shape) + x;
    let rb = ints_bytes(b.shape) + y;
    let ia = int_bytes(a.shape.len() as i64) + ra;
    let ib = int_bytes(b.shape.len() as i64) + rb;
    assert(tensor_bytes(a) + x =~= seq![a.dtype.code()] + ia);
    assert(tensor_bytes(b) + y =~= seq![b.dtype.code()] + ib);
    lemma_same_front(seq![a.dtype.code()], ia, seq![b.dtype.code()], ib);
    assert(seq![a.dtype.code()][0] == seq![b.dtype.code()][0]);
    law_numbers_distinct(a.dtype, b.dtype, TorchOp::MM, TorchOp::MM);
    lemma_int_front(a.shape.len() as i64, ra, b.shape.len() as i64, rb);
    lemma_counted(a.shape.len(), b.shape.len());
    lemma_ints(a.shape, x, b.shape, y);
}

proof fn lemma_tensors(a: Seq<TensorView>, x: Seq<u8>, b: Seq<TensorView>, y: Seq<u8>)
    requires
        a.len() == b.len(),
        forall|i: int| 0 <= i < a.len() ==> tensor_counted(#[trigger] a[i]),
        forall|i: int| 0 <= i < b.len() ==> tensor_counted(#[trigger] b[i]),
        tensors_bytes(a) + x == tensors_bytes(b) + y,
    ensures
        a == b,
        x == y,
    decreases a.len(),
{
    if a.len() == 0 {
        assert(tensors_bytes(a) + x =~= x);
        assert(tensors_bytes(b) + y =~= y);
        assert(a =~= b);
    } else {
        let fa = a.drop_last();
        let fb = b.drop_last();
        let xa = tensor_bytes(a.last()) + x;
        let yb = tensor_bytes(b.last()) + y;
        assert(tensors_bytes(a) + x =~= tensors_bytes(fa) + xa);
        assert(tensors_bytes(b) + y =~= tensors_bytes(fb) + yb);
        assert forall|i: int| 0 <= i < fa.len() implies tensor_counted(#[trigger] fa[i]) by {
            assert(fa[i] == a[i]);
        }
        assert forall|i: int| 0 <= i < fb.len() implies tensor_counted(#[trigger] fb[i]) by {
            assert(fb[i] == b[i]);
        }
        lemma_tensors(fa, xa, fb, yb);
        lemma_tensor(a[a.len() - 1], x, b[b.len() - 1], y);
        assert(a =~= fa.push(a.last()));
        assert(b =~= fb.push(b.last()));
    }
}

/// The first byte of an argument.
spec fn tag_of(a: ArgView) -> u8 {
    arg_bytes(a)[0]
}

/// What stands behind the first byte of an argument.
spec fn rest_of(a: ArgView) -> Seq<u8> {
    match a {
        ArgView::Tensor(t) => tensor_bytes(t),
        ArgView::Optional(Some(t)) => tensor_bytes(t),
        ArgView::List(l) => int_bytes(l.len() as i64) + tensors_bytes(l),
        ArgView::Int(n) => int_bytes(n),
        ArgView::Ints(l) => int_bytes(l.len() as i64) + ints_bytes(l),
        ArgView::Dtype(k) => seq![k.code()],
        _ => seq![],
    }
}

proof fn lemma_parts(a: ArgView)
    ensures
        arg_bytes(a) == seq![tag_of(a)] + rest_of(a),
{
    assert(arg_bytes(a) =~= seq![tag_of(a)] + rest_of(a));
}

proof fn lemma_arg(a: ArgView, x: Seq<u8>, b: ArgView, y: Seq<u8>)
    requires
        arg_counted(a),
        arg_counted(b),
        arg_bytes(a) + x == arg_bytes(b) + y,
    ensures
        a == b,
        x == y,
{
    lemma_parts(a);
    lemma_parts(b);
    let ra = rest_of(a) + x;
    let rb = rest_of(b) + y;
    assert(arg_bytes(a) + x =~= seq![tag_of(a)] + ra);
    assert(arg_bytes(b) + y =~= seq![tag_of(b)] + rb);
    lemma_same_front(seq![tag_of(a)], ra, seq![tag_of(b)], rb);
    assert(seq![tag_of(a)][0] == seq![tag_of(b)][0]);
    assert(tag_of(a) == tag_of(b));
    match (a, b) {
        (ArgView::Tensor(s), ArgView::Tensor(t)) => lemma_tensor(s, x, t, y),
        (ArgView::Optional(Some(s)), ArgView::Optional(Some(t))) => lemma_tensor(s, x, t, y),
        (ArgView::List(l), ArgView::List(m)) => {
            assert(ra =~= int_bytes(l.len() as i64) + (tensors_bytes(l) + x));
            assert(rb =~= int_bytes(m.len() as i64) + (tensors_bytes(m) + y));
            lemma_int_front(
                l.len() as i64,
                tensors_bytes(l) + x,
                m.len() as i64,
                tensors_bytes(m) + y,
            );
            lemma_counted(l.len(), m.len());
            lemma_tensors(l, x, m, y);
        },
        (ArgView::Int(n), ArgView::Int(m)) => lemma_int_front(n, x, m, y),
        (ArgView::Ints(l), ArgView::Ints(m)) => {
            assert(ra =~= int_bytes(l.len() as i64) + (ints_bytes(l) + x));
            assert(rb =~= int_bytes(m.len() as i64) + (ints_bytes(m) + y));
            lemma_int_front(
                l.len() as i64,
                ints_bytes(l) + x,
                m.len() as i64,
                ints_bytes(m) + y,
            );
            lemma_counted(l.len(), m.len());
            lemma_ints(l, x, m, y);
        },
        (ArgView::Dtype(k), ArgView::Dtype(m)) => {
            lemma_same_front(seq![k.code()], x, seq![m.code()], y);
            assert(seq![k.code()][0] == seq![m.code()][0]);
            law_numbers_distinct(k, m, TorchOp::MM, TorchOp::MM);
        },
        _ => {
            assert(ra =~= x);
            assert(rb =~= y);
        },
    }
}

proof fn lemma_args_split(l: Seq<ArgView>)
    requires
        l.len() > 0,
    ensures
        args_bytes(l) == arg_bytes(l[0]) + args_bytes(l.skip(1)),
    decreases l.len(),
{
    let front = l.drop_last();
    if l.len() == 1 {
        assert(front =~= seq![]);
        assert(l.skip(1) =~= seq![]);
        assert(args_bytes(l) =~= arg_bytes(l[0]) + args_bytes(l.skip(1)));
    } else {
        lemma_args_split(front);
        assert(l.skip(1).drop_last() =~= front.skip(1));
        assert(args_bytes(l) =~= arg_bytes(l[0]) + args_bytes(l.skip(1)));
    }
}

proof fn lemma_args(a: Seq<ArgView>, b: Seq<ArgView>)
    requires
        forall|i: int| 0 <= i < a.len() ==> arg_counted(#[trigger] a[i]),
        forall|i: int| 0 <= i < b.len() ==> arg_counted(#[trigger] b[i]),
        args_bytes(a) == args_bytes(b),
    ensures
        a == b,
    decreases a.len(),
{
    if a.len() > 0 {
        lemma_args_split(a);
        lemma_parts(a[0]);
    }
    if b.len() > 0 {
        lemma_args_split(b);
        lemma_parts(b[0]);
    }
    if a.len() > 0 && b.len() > 0 {
        lemma_arg(a[0], args_bytes(a.skip(1)), b[0], args_bytes(b.skip(1)));
        assert forall|i: int| 0 <= i < a.skip(1).len() implies arg_counted(
            #[trigger] a.skip(1)[i],
        ) by {
            assert(a.skip(1)[i] == a[i + 1]);
        }
        assert forall|i: int| 0 <= i < b.skip(1).len() implies arg_counted(
            #[trigger] b.skip(1)[i],
        ) by {
            assert(b.skip(1)[i] == b[i + 1]);
        }
        lemma_args(a.skip(1), b.skip(1));
        assert(a =~= seq![a[0]] + a.skip(1));
        assert(b =~= seq![b[0]] + b.skip(1));
    } else {
        assert(a =~= b);
    }
}

/// Calls that differ in their operator or in any argument enter a hash with different
/// bytes.
pub proof fn law_calls_hashed_apart(a: CallView, b: CallView)
    requires
        call_counted(a),
        call_counted(b),
    ensures
        call_bytes(a) == call_bytes(b) ==> a == b,
{
    if call_bytes(a) == call_bytes(b) {
        lemma_same_front(
            seq![a.op.code()],
            args_bytes(a.args),
            seq![b.op.code()],
            args_bytes(b.args),
        );
        assert(seq![a.op.code()][0] == seq![b.op.code()][0]);
        law_numbers_distinct(Kind::Bool, Kind::Bool, a.op, b.op);
        lemma_args(a.args, b.args);
    }
}

/// What is written for a run of calls: the bytes of each call, in order.
pub open spec fn run_bytes(calls: Seq<CallView>) -> Seq<Seq<u8>> {
    Seq::new(calls.len(), |i: int| call_bytes(calls[i]))
}

/// What is timed of a run of calls is what was called, call by call.
pub proof fn law_infos_of_calls(calls: Seq<TorchCall>, infos: Seq<TorchCallInfo>, i: int)
    ensures
        call_infos(calls).len() == calls.len(),
        info_views(infos).len() == infos.len(),
        0 <= i < calls.len() ==> call_infos(calls)[i] == calls[i].info@,
        0 <= i < infos.len() ==> info_views(infos)[i] == infos[i]@,
{
}

/// A run of calls is hashed call by call, in order, and runs that differ in any call are
/// written differently.
pub proof fn law_runs_hashed_apart(a: Seq<CallView>, b: Seq<CallView>)
    requires
        forall|i: int| 0 <= i < a.len() ==> call_counted(#[trigger] a[i]),
        forall|i: int| 0 <= i < b.len() ==> call_counted(#[trigger] b[i]),
    ensures
        sequence_hash(a) == DefaultHasher::spec_finish(run_bytes(a)),
        run_bytes(a) == run_bytes(b) ==> a == b,
{
    assert(a.map_values(|c: CallView| call_bytes(c)) =~= run_bytes(a));
    if run_bytes(a) == run_bytes(b) {
        assert(run_bytes(a).len() == run_bytes(b).len());
        assert forall|i: int| 0 <= i < a.len() implies a[i] == b[i] by {
            assert(run_bytes(a)[i] == run_bytes(b)[i]);
            law_calls_hashed_apart(a[i], b[i]);
        }
        assert(a =~= b);
    }
}

} // verus!
