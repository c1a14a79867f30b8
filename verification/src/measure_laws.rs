//! What measurements run on: which tensors a kernel gets, where they come from, and which
//! memory a copy goes between.

use crate::cuda_call::CudaMemcpyKind;
use crate::cuda_estimate::{
    copy_plan, flash_operands, quotient, rounded, CopyDirection, CudaTimes, Memory, OperandView,
};
use crate::duration::Duration;
use crate::kernel::{
    arg_order, arg_tensors, bias_gradient, casts, keeps, measurable, numbered, operands,
    operands_below, sources, taken, Kept,
};
use crate::perf_db::{DbView, FlashAttnKey};
use crate::recording::{cuda_with, known_times, missing_times, same_gpu, torch_with};
use crate::tensor_cache::{
    after_use, countable, elements, has_key, kept, key_index, orderly, range_of, slot_for, source,
    tensor_key, used, Entries, KindRange, TensorKey, CACHED_TENSORS,
};
use crate::torch_call::{sequence_hash, ArgView, CallView, Kind, TensorView, TorchOp};
use crate::torch_estimate::{lemma_asked_all, TorchTimes};
use crate::torch_op::{kind_of_arg, well_typed, ArgKind};
use vstd::prelude::*;

verus! {

/// How many tensors an argument has.
pub open spec fn tensor_count(a: ArgView) -> int {
    match a {
        ArgView::Tensor(_) => 1,
        ArgView::Optional(Some(_)) => 1,
        ArgView::List(l) => l.len() as int,
        _ => 0,
    }
}

/// A tensor of an argument, by its number.
pub open spec fn tensor_at(a: ArgView, j: int) -> TensorView {
    match a {
        ArgView::Tensor(t) => t,
        ArgView::Optional(Some(t)) => t,
        ArgView::List(l) => l[j],
        _ => arbitrary(),
    }
}

/// How many tensors the arguments from `lo` up to `hi` have.
pub open spec fn tensors_between(args: Seq<ArgView>, lo: int, hi: int) -> int
    decreases hi - lo,
{
    if hi <= lo {
        0
    } else {
        tensors_between(args, lo, hi - 1) + tensor_count(args[hi - 1])
    }
}

/// Whether the first argument of an operator gets its tensors after the others.
pub open spec fn first_comes_last(op: TorchOp) -> bool {
    op == TorchOp::ForeachMul_ || op == TorchOp::ForeachAddCMul_ || op == TorchOp::ForeachAddCDiv_
        || op == TorchOp::Conv2dBackward
}

/// How many tensors are taken before those of an argument.
pub open spec fn taken_before(c: CallView, arg: int) -> int {
    if !first_comes_last(c.op) {
        tensors_between(c.args, 0, arg)
    } else if arg == 0 {
        tensors_between(c.args, 1, c.args.len() as int)
    } else {
        tensors_between(c.args, 1, arg)
    }
}

/// The tensors of an argument are taken one after the other.
proof fn lemma_taken(c: CallView, m: int, n: int, j: int)
    requires
        0 <= m < n <= arg_order(c.op).len(),
        0 <= j < tensor_count(c.args[arg_order(c.op)[m]]),
    ensures
        operands_below(c, m).len() + j < operands_below(c, n).len(),
        operands_below(c, n)[operands_below(c, m).len() + j] == (
            arg_order(c.op)[m],
            tensor_at(c.args[arg_order(c.op)[m]], j),
        ),
    decreases n,
{
    let arg = arg_order(c.op)[n - 1];
    let before = operands_below(c, n - 1);
    let more = numbered(arg, arg_tensors(c.args[arg]));
    assert(operands_below(c, n) == before + more);
    if m < n - 1 {
        lemma_taken(c, m, n - 1, j);
    }
}

proof fn lemma_taken_count(c: CallView, n: int)
    requires
        0 < n <= arg_order(c.op).len(),
    ensures
        operands_below(c, n).len() == operands_below(c, n - 1).len() + tensor_count(
            c.args[arg_order(c.op)[n - 1]],
        ),
{
}

proof fn lemma_usual_count(c: CallView, n: int)
    requires
        !first_comes_last(c.op),
        0 <= n <= arg_order(c.op).len(),
    ensures
        operands_below(c, n).len() == tensors_between(c.args, 0, n),
    decreases n,
{
    if n > 0 {
        lemma_usual_count(c, n - 1);
        lemma_taken_count(c, n);
    }
}

proof fn lemma_late_count(c: CallView)
    requires
        well_typed(c),
        first_comes_last(c.op),
    ensures
        operands_below(c, 0).len() == 0,
        operands_below(c, 1).len() == tensors_between(c.args, 1, 2),
        c.op == TorchOp::ForeachMul_ ==> operands_below(c, 2).len() == tensors_between(
            c.args,
            0,
            c.args.len() as int,
        ) && tensors_between(c.args, 1, c.args.len() as int) == tensors_between(c.args, 1, 2),
        c.op != TorchOp::ForeachMul_ ==> operands_below(c, 2).len() == tensors_between(
            c.args,
            1,
            3,
        ) && operands_below(c, 3).len() == tensors_between(c.args, 0, c.args.len() as int)
            && tensors_between(c.args, 1, c.args.len() as int) == tensors_between(c.args, 1, 3),
{
    reveal_with_fuel(tensors_between, 8);
    lemma_taken_count(c, 1);
    lemma_taken_count(c, 2);
    if c.op != TorchOp::ForeachMul_ {
        lemma_taken_count(c, 3);
    }
    if c.op == TorchOp::Conv2dBackward {
        assert(c.op.takes().len() == 6);
        assert(kind_of_arg(c.args[3]) == ArgKind::Ints);
        assert(kind_of_arg(c.args[4]) == ArgKind::Ints);
        assert(kind_of_arg(c.args[5]) == ArgKind::Ints);
    }
}

/// A call is measured on all of its tensors and no others. They are taken argument by
/// argument, those of one argument in order; where the first argument comes last, the
/// others come before it.
pub proof fn law_tensors_taken_in_order(c: CallView, arg: int, j: int)
    requires
        well_typed(c),
        0 <= arg < c.args.len(),
        0 <= j < tensor_count(c.args[arg]),
    ensures
        operands(c).len() == tensors_between(c.args, 0, c.args.len() as int),
        taken_before(c, arg) + j < operands(c).len(),
        operands(c)[taken_before(c, arg) + j] == (arg, tensor_at(c.args[arg], j)),
{
    let order = arg_order(c.op);
    let n = order.len() as int;
    if first_comes_last(c.op) {
        lemma_late_count(c);
        let m = if arg == 0 {
            n - 1
        } else {
            arg - 1
        };
        assert(kind_of_arg(c.args[arg]) == c.op.takes()[arg]);
        assert(arg < n);
        assert(order[m] == arg);
        lemma_taken(c, m, n, j);
        reveal_with_fuel(tensors_between, 3);
    } else {
        lemma_usual_count(c, n);
        lemma_usual_count(c, arg);
        assert(order[arg] == arg);
        lemma_taken(c, arg, n, j);
    }
}

/// A call can be measured exactly where it has the arguments that its operator takes, the
/// elements of each of its tensors can be counted dimension by dimension within range, and
/// a weight to take a gradient by has a dimension.
pub proof fn law_measurable(c: CallView)
    ensures
        measurable(c) <==> {
            &&& c.args.len() == c.op.takes().len()
            &&& forall|i: int|
                0 <= i < c.args.len() ==> kind_of_arg(#[trigger] c.args[i]) == c.op.takes()[i]
            &&& forall|i: int, j: int, n: int|
                0 <= i < c.args.len() && 0 <= j < tensor_count(c.args[i]) && 0 <= n
                    <= tensor_at(c.args[i], j).shape.len() ==> i64::MIN <= elements(
                    #[trigger] tensor_at(c.args[i], j).shape.take(n),
                ) <= i64::MAX
            &&& c.op == TorchOp::Conv2dBackward ==> tensor_at(c.args[2], 0).shape.len() > 0
        },
{
    assert forall|a: ArgView, j: int| 0 <= j < tensor_count(a) implies #[trigger] arg_tensors(a)[j]
        == tensor_at(a, j) by {}
    assert forall|a: ArgView| (#[trigger] arg_tensors(a)).len() == tensor_count(a) by {}
    if measurable(c) {
        assert forall|i: int, j: int, n: int|
            0 <= i < c.args.len() && 0 <= j < tensor_count(c.args[i]) && 0 <= n
                <= tensor_at(c.args[i], j).shape.len() implies i64::MIN <= elements(
            #[trigger] tensor_at(c.args[i], j).shape.take(n),
        ) <= i64::MAX by {
            assert(countable(arg_tensors(c.args[i])[j].shape));
        }
        if c.op == TorchOp::Conv2dBackward {
            assert(kind_of_arg(c.args[2]) == ArgKind::Tensor);
            assert(arg_tensors(c.args[2])[0] == tensor_at(c.args[2], 0));
        }
    }
    if c.args.len() == c.op.takes().len() && (forall|i: int|
        0 <= i < c.args.len() ==> kind_of_arg(#[trigger] c.args[i]) == c.op.takes()[i]) && (forall|
        i: int,
        j: int,
        n: int,
    |
        0 <= i < c.args.len() && 0 <= j < tensor_count(c.args[i]) && 0 <= n <= tensor_at(
            c.args[i],
            j,
        ).shape.len() ==> i64::MIN <= elements(#[trigger] tensor_at(c.args[i], j).shape.take(n))
            <= i64::MAX) {
        assert forall|i: int, j: int|
            0 <= i < c.args.len() && 0 <= j < arg_tensors(c.args[i]).len() implies countable(
            (#[trigger] arg_tensors(c.args[i])[j]).shape,
        ) by {
            let shape = tensor_at(c.args[i], j).shape;
            assert(arg_tensors(c.args[i])[j].shape == shape);
            assert forall|n: int| 0 <= n <= shape.len() implies i64::MIN <= elements(
                #[trigger] shape.take(n),
            ) <= i64::MAX by {
                assert(elements(tensor_at(c.args[i], j).shape.take(n)) <= i64::MAX);
            }
        }
        if c.op == TorchOp::Conv2dBackward {
            assert(kind_of_arg(c.args[2]) == ArgKind::Tensor);
            assert(arg_tensors(c.args[2])[0] == tensor_at(c.args[2], 0));
        }
    }
}

/// A span is counted in whole microseconds, the rest of one left out.
pub proof fn law_whole_microseconds(d: Duration)
    ensures
        1000 * d.micros() <= d.nanos < 1000 * (d.micros() + 1),
{
}

/// How many tensors an operator's first arguments are.
pub open spec fn leading_tensors(op: TorchOp) -> nat {
    match op {
        TorchOp::ForeachMul_
        | TorchOp::ForeachMulScalar_
        | TorchOp::ForeachAddCMul_
        | TorchOp::ForeachAddCDiv_
        | TorchOp::Cat => 0,
        TorchOp::MulScalar
        | TorchOp::MulScalar_
        | TorchOp::DivScalar
        | TorchOp::Pow
        | TorchOp::Dropout
        | TorchOp::NativeDropout
        | TorchOp::FusedDropout
        | TorchOp::Gelu
        | TorchOp::Silu
        | TorchOp::ToCopyUpcast
        | TorchOp::LogSoftmax
        | TorchOp::NllLossBackward
        | TorchOp::Mean
        | TorchOp::Sum
        | TorchOp::Sqrt
        | TorchOp::Rsqrt
        | TorchOp::Neg
        | TorchOp::Softmax
        | TorchOp::ZerosLike
        | TorchOp::ConvDType => 1,
        TorchOp::AddMM
        | TorchOp::BAddBMM
        | TorchOp::AddCMul_
        | TorchOp::AddCDiv_
        | TorchOp::Where
        | TorchOp::SDPA
        | TorchOp::SDPAEfficientBackward
        | TorchOp::Conv2dBackward => 3,
        TorchOp::SDPABackward => 6,
        _ => 2,
    }
}

/// What an operator's arguments behind its first tensors are.
pub open spec fn further_arguments(op: TorchOp) -> Seq<ArgKind> {
    match op {
        TorchOp::Linear => seq![ArgKind::Optional],
        TorchOp::ForeachMulScalar_ => seq![ArgKind::List],
        TorchOp::ForeachMul_ => seq![ArgKind::List, ArgKind::List],
        TorchOp::ForeachAddCMul_
        | TorchOp::ForeachAddCDiv_ => seq![ArgKind::List, ArgKind::List, ArgKind::List],
        TorchOp::Cat => seq![ArgKind::List, ArgKind::Int],
        TorchOp::Dropout | TorchOp::NativeDropout => seq![ArgKind::Int, ArgKind::Flag],
        TorchOp::FusedDropout
        | TorchOp::NativeDropoutBackward
        | TorchOp::LogSoftmax
        | TorchOp::LogSoftmaxBackward
        | TorchOp::Softmax
        | TorchOp::SoftmaxBackward => seq![ArgKind::Int],
        TorchOp::ConvDType => seq![ArgKind::Dtype],
        TorchOp::SDPA => seq![ArgKind::Optional, ArgKind::Flag, ArgKind::Flag],
        TorchOp::SDPAEfficientBackward => seq![ArgKind::Optional, ArgKind::Flag],
        TorchOp::SDPABackward => seq![ArgKind::Int, ArgKind::Int, ArgKind::Flag],
        TorchOp::Conv2d => seq![
            ArgKind::Optional,
            ArgKind::Ints,
            ArgKind::Ints,
            ArgKind::Ints,
            ArgKind::Int,
        ],
        TorchOp::Conv2dBackward => seq![ArgKind::Ints, ArgKind::Ints, ArgKind::Ints],
        _ => seq![],
    }
}

/// An operator takes some tensors first and then what else it needs.
pub proof fn law_tensors_come_first(op: TorchOp)
    ensures
        op.takes() == Seq::new(leading_tensors(op), |i: int| ArgKind::Tensor) + further_arguments(
            op,
        ),
{
    assert(op.takes() =~= Seq::new(leading_tensors(op), |i: int| ArgKind::Tensor)
        + further_arguments(op));
}

/// A linear map runs with automatic casts exactly where its weight is in full precision;
/// nothing else does.
pub proof fn law_casts(c: CallView, weight: TensorView)
    requires
        well_typed(c),
    ensures
        c.op != TorchOp::Linear ==> !casts(c),
        c.op == TorchOp::Linear && c.args[1] == ArgView::Tensor(weight) ==> (casts(c) <==> {
            ||| weight.dtype == Kind::Float
            ||| weight.dtype == Kind::Double
        }),
{
}

/// The gradient by the bias has one number for each output channel of the weight, of the
/// weight's element type; only a convolution run backward has one.
pub proof fn law_bias_gradient(c: CallView, weight: TensorView)
    requires
        well_typed(c),
    ensures
        c.op != TorchOp::Conv2dBackward ==> bias_gradient(c) is None,
        c.op == TorchOp::Conv2dBackward && c.args[2] == ArgView::Tensor(weight) ==> {
            &&& bias_gradient(c) matches Some(t)
            &&& t.shape.len() == 1
            &&& t.shape[0] == weight.shape[0]
            &&& t.dtype == weight.dtype
        },
{
}

/// An operator that writes its operands in lists keeps nothing, nor does efficient
/// attention run backward; a dropout keeps its result and its mask, attention run backward
/// two of its operands, a convolution run backward the gradient by the bias, and every
/// other operator its one result.
pub proof fn law_what_is_kept(op: TorchOp)
    ensures
        keeps(op).len() == 0 <==> {
            ||| op == TorchOp::ForeachMul_
            ||| op == TorchOp::ForeachMulScalar_
            ||| op == TorchOp::ForeachAddCMul_
            ||| op == TorchOp::ForeachAddCDiv_
            ||| op == TorchOp::SDPAEfficientBackward
        },
        op == TorchOp::SDPABackward <==> keeps(op).contains(Kept::Operand(0)),
        op == TorchOp::SDPABackward ==> keeps(op).len() == 2 && keeps(op)[0] == Kept::Operand(0)
            && keeps(op)[1] == Kept::Operand(4),
        op == TorchOp::Conv2dBackward <==> keeps(op).contains(Kept::BiasGradient),
        op == TorchOp::Conv2dBackward ==> keeps(op).len() == 1,
        op == TorchOp::NativeDropout || op == TorchOp::FusedDropout <==> keeps(op).contains(
            Kept::Result(1),
        ),
        keeps(op).contains(Kept::Result(1)) ==> keeps(op).len() == 2 && keeps(op)[0]
            == Kept::Result(0),
        keeps(op).len() == 1 && op != TorchOp::Conv2dBackward ==> keeps(op)[0] == Kept::Result(0),
        forall|i: int|
            0 <= i < keeps(op).len() && keeps(op)[i] is Operand ==> op == TorchOp::SDPABackward,
{
    let k = keeps(op);
    if op == TorchOp::SDPABackward {
        assert(k[0] == Kept::Operand(0));
    } else if op == TorchOp::Conv2dBackward {
        assert(k[0] == Kept::BiasGradient);
    } else if op == TorchOp::NativeDropout || op == TorchOp::FusedDropout {
        assert(k[1] == Kept::Result(1));
    }
}

/// A tensor that was used stands in front of all others, which keep their order.
pub proof fn law_used_comes_first(e: Entries, i: int, j: int)
    requires
        orderly(e),
        0 <= i < e.len(),
        0 <= j < e.len(),
    ensures
        used(e, e[i].0).len() == e.len(),
        used(e, e[i].0)[0] == e[i],
        j < i ==> used(e, e[i].0)[j + 1] == e[j],
        j > i ==> used(e, e[i].0)[j] == e[j],
{
    let key = e[i].0;
    assert(has_key(e, key));
    let k = key_index(e, key);
    if k < i {
        assert(e[k].0 != e[i].0);
    } else if k > i {
        assert(e[i].0 != e[k].0);
    }
}

/// A tensor of a new size or element type gets a slot of its own while there is room;
/// otherwise it takes that of the tensor whose last use is longest ago, which is given up.
/// The others stay, in order.
pub proof fn law_longest_unused_goes(e: Entries, key: TensorKey, j: int)
    requires
        orderly(e),
        forall|i: int| 0 <= i < e.len() ==> (#[trigger] e[i]).0 != key,
    ensures
        kept(e, key)[0].0 == key,
        e.len() < CACHED_TENSORS ==> kept(e, key).len() == e.len() + 1 && kept(e, key)[0].1
            == e.len(),
        e.len() == CACHED_TENSORS ==> kept(e, key).len() == CACHED_TENSORS && kept(e, key)[0].1
            == e[CACHED_TENSORS - 1].1,
        0 <= j < e.len() && j < CACHED_TENSORS - 1 ==> kept(e, key)[j + 1] == e[j],
{
    assert(!has_key(e, key));
}

/// A tensor comes from the slot of one of its size and element type, if one is kept, which
/// is then used; otherwise it is made anew and kept.
pub proof fn law_where_tensors_come_from(e: Entries, t: TensorView, i: int)
    requires
        orderly(e),
        0 <= i < e.len(),
    ensures
        source(e, t).info == t,
        e[i].0 == tensor_key(t) ==> source(e, t).slot == e[i].1 && source(e, t).fresh is None
            && after_use(e, t) == used(e, e[i].0),
        (forall|k: int| 0 <= k < e.len() ==> (#[trigger] e[k]).0 != tensor_key(t)) ==> source(
            e,
            t,
        ).fresh is Some && after_use(e, t) == kept(e, tensor_key(t)) && source(e, t).slot
            == kept(e, tensor_key(t))[0].1,
{
    let key = tensor_key(t);
    if e[i].0 == key {
        assert(has_key(e, key));
        let k = key_index(e, key);
        if k < i {
            assert(e[k].0 != e[i].0);
        } else if k > i {
            assert(e[i].0 != e[k].0);
        }
    }
    if forall|k: int| 0 <= k < e.len() ==> (#[trigger] e[k]).0 != key {
        assert(!has_key(e, key));
        assert(kept(e, key)[0].1 == slot_for(e, key));
    }
}

/// Tensors are taken one after the other: each comes from what those before it have left.
pub proof fn law_tensors_taken_in_turn(
    e: Entries,
    a: Seq<(int, TensorView)>,
    b: Seq<(int, TensorView)>,
    t: (int, TensorView),
)
    ensures
        taken(e, seq![t]) == after_use(e, t.1),
        sources(e, seq![t]) == seq![(t.0, source(e, t.1))],
        taken(e, a + b) == taken(taken(e, a), b),
        sources(e, a + b) == sources(e, a) + sources(taken(e, a), b),
    decreases b.len(),
{
    assert(seq![t].drop_last() =~= seq![]);
    assert(taken(e, seq![]) == e);
    assert(seq![t].take(0) =~= seq![]);
    assert(sources(e, seq![t]) =~= seq![(t.0, source(e, t.1))]);
    let all = a + b;
    if b.len() == 0 {
        assert(all =~= a);
        assert(sources(e, a) + sources(taken(e, a), b) =~= sources(e, a));
    } else {
        law_tensors_taken_in_turn(e, a, b.drop_last(), t);
        assert(all.drop_last() =~= a + b.drop_last());
        assert(all.last() == b.last());
        let x = sources(e, all);
        let y = sources(e, a) + sources(taken(e, a), b);
        assert forall|i: int| 0 <= i < all.len() implies x[i] == y[i] by {
            if i < a.len() {
                assert(all.take(i) =~= a.take(i));
            } else {
                let k = i - a.len();
                assert(all.take(i) =~= a + b.take(k));
                lemma_taken_all(e, a, b.take(k));
            }
        }
        assert(x =~= y);
    }
}

proof fn lemma_taken_all(e: Entries, a: Seq<(int, TensorView)>, b: Seq<(int, TensorView)>)
    ensures
        taken(e, a + b) == taken(taken(e, a), b),
    decreases b.len(),
{
    if b.len() == 0 {
        assert(a + b =~= a);
    } else {
        lemma_taken_all(e, a, b.drop_last());
        assert((a + b).drop_last() =~= a + b.drop_last());
    }
}

/// The elements of a tensor are counted dimension by dimension.
pub proof fn law_elements_multiply(a: Seq<i64>, b: Seq<i64>, n: i64)
    ensures
        elements(seq![]) == 1,
        elements(seq![n]) == n,
        elements(a + b) == elements(a) * elements(b),
    decreases b.len(),
{
    assert(seq![n].drop_last() =~= seq![]);
    assert(elements(seq![n]) == elements(seq![]) * n);
    if b.len() == 0 {
        assert(a + b =~= a);
        assert(elements(a) * elements(b) == elements(a)) by (nonlinear_arith)
            requires
                elements(b) == 1,
        ;
    } else {
        let front = b.drop_last();
        let last = b.last() as int;
        law_elements_multiply(a, front, n);
        assert((a + b).drop_last() =~= a + front);
        assert((a + b).last() == b.last());
        let x = elements(a);
        let y = elements(front);
        assert((x * y) * last == x * (y * last)) by (nonlinear_arith);
    }
}

/// Two tensors are kept as one exactly where they have the same number of elements and the
/// same element type, whatever their shapes.
pub proof fn law_tensors_of_a_size(a: TensorView, b: TensorView)
    requires
        countable(a.shape),
        countable(b.shape),
    ensures
        tensor_key(a) == tensor_key(b) <==> elements(a.shape) == elements(b.shape) && a.dtype
            == b.dtype,
{
    assert(a.shape.take(a.shape.len() as int) =~= a.shape);
    assert(b.shape.take(b.shape.len() as int) =~= b.shape);
    crate::hash_laws::law_numbers_distinct(a.dtype, b.dtype, TorchOp::MM, TorchOp::MM);
}

/// Flags are drawn for flags, whole numbers for the eight whole-number types, and
/// fractions for everything else.
pub proof fn law_what_is_drawn(kind: Kind)
    ensures
        range_of(kind) == KindRange::Bool <==> kind == Kind::Bool,
        range_of(kind) == KindRange::Integer <==> {
            ||| kind == Kind::Int8
            ||| kind == Kind::Int16
            ||| kind == Kind::Int
            ||| kind == Kind::Int64
            ||| kind == Kind::Uint8
            ||| kind == Kind::UInt16
            ||| kind == Kind::UInt32
            ||| kind == Kind::UInt64
        },
{
}

/// A copy reads and writes the memory that its kind says, and is asked for in the
/// direction between host and device that follows.
pub proof fn law_copies_planned(kind: CudaMemcpyKind)
    ensures
        copy_plan(kind).from == Memory::Device <==> {
            ||| kind == CudaMemcpyKind::DeviceToHost
            ||| kind == CudaMemcpyKind::DeviceToPinnedHost
            ||| kind == CudaMemcpyKind::DeviceToDevice
        },
        copy_plan(kind).from == Memory::PinnedHost <==> kind == CudaMemcpyKind::PinnedHostToDevice,
        copy_plan(kind).to == Memory::Device <==> {
            ||| kind == CudaMemcpyKind::HostToDevice
            ||| kind == CudaMemcpyKind::PinnedHostToDevice
            ||| kind == CudaMemcpyKind::DeviceToDevice
        },
        copy_plan(kind).to == Memory::PinnedHost <==> kind == CudaMemcpyKind::DeviceToPinnedHost,
        copy_plan(kind).direction == match (copy_plan(kind).from, copy_plan(kind).to) {
            (Memory::Device, Memory::Device) => CopyDirection::DeviceToDevice,
            (Memory::Device, _) => CopyDirection::DeviceToHost,
            (_, Memory::Device) => CopyDirection::HostToDevice,
            _ => CopyDirection::HostToHost,
        },
{
}

/// A number that is not negative is rounded to the smallest multiple that is not below it.
pub proof fn law_rounded_up(x: int, m: int)
    requires
        m > 0,
        x > -m,
    ensures
        rounded(x, m) % m == 0,
        x <= rounded(x, m) < x + m,
{
    let a = x + m - 1;
    assert(quotient(a, m) == a / m);
    vstd::arithmetic::div_mod::lemma_fundamental_div_mod(a, m);
    vstd::arithmetic::div_mod::lemma_mod_bound(a, m);
    assert(m * (a / m) == (a / m) * m) by (nonlinear_arith);
    vstd::arithmetic::div_mod::lemma_mod_multiples_basic(a / m, m);
}

/// The smallest multiple of 8 that is not below a size.
pub open spec fn is_padded(padded: i32, size: i32) -> bool {
    padded % 8 == 0 && size <= padded < size + 8
}

/// Whether a tensor has four dimensions: batch, sequence, heads, and the size of a head.
pub open spec fn is_heads(t: OperandView, batch: i32, len: i32, heads: i32, dtype: Kind) -> bool {
    &&& t.shape.len() == 4
    &&& t.shape[0] == batch
    &&& t.shape[1] == len
    &&& t.shape[2] == heads
    &&& t.dtype == dtype
}

/// A flash-attention kernel runs on queries as long as the query sequence and on keys and
/// values as long as the key sequence, with heads padded to a multiple of 8 where it pads
/// them itself: forward all of them, backward the gradient of the output, which comes
/// first; the output and the logarithms of the sums come last.
pub proof fn law_flash_operands(key: FlashAttnKey)
    requires
        0 <= key.head_size <= i32::MAX - 7,
    ensures
        ({
            let ts = flash_operands(key);
            let q = |t: OperandView, dtype: Kind| is_heads(
                t,
                key.batch_size,
                key.seqlen_q,
                key.num_heads,
                dtype,
            );
            let k = |t: OperandView, dtype: Kind| is_heads(
                t,
                key.batch_size,
                key.seqlen_k,
                key.num_heads_k,
                dtype,
            );
            let dtype = if key.is_bf16 {
                Kind::BFloat16
            } else {
                Kind::Half
            };
            &&& key.is_fwd ==> {
                &&& ts.len() == 3
                &&& q(ts[0], dtype) && k(ts[1], dtype) && k(ts[2], dtype)
                &&& is_padded(ts[0].shape[3], key.head_size)
                &&& ts[1].shape[3] == ts[0].shape[3]
                &&& ts[2].shape[3] == ts[0].shape[3]
            }
            &&& !key.is_fwd ==> {
                &&& ts.len() == 6
                &&& q(ts[0], dtype) && is_padded(ts[0].shape[3], key.head_size)
                &&& q(ts[1], dtype) && ts[1].shape[3] == key.head_size
                &&& k(ts[2], dtype) && ts[2].shape[3] == key.head_size
                &&& k(ts[3], dtype) && ts[3].shape[3] == key.head_size
                &&& q(ts[4], dtype) && ts[4].shape[3] == key.head_size
                &&& ts[5].shape == seq![key.batch_size, key.num_heads, key.seqlen_q]
                &&& ts[5].dtype == Kind::Float
            }
        }),
{
    law_rounded_up(key.head_size as int, 8);
}

/// A call whose time is known is given that time. One without is measured or, in replay,
/// charged none, and noted as missing the first time.
pub proof fn law_calls_answered(t: TorchTimes, c: CallView)
    ensures
        t.compute.contains_key(c) ==> t.answer(c) == Some(t.compute[c]) && t.asked(c) == t,
        !t.compute.contains_key(c) && !t.replay ==> t.answer(c) is None && t.asked(c) == t,
        !t.compute.contains_key(c) && t.replay ==> t.answer(c) == Some(Duration { nanos: 0 })
            && t.asked(c).missing == t.missing.push(c) && t.asked(c).compute == t.compute.insert(
            c,
            Duration { nanos: 0 },
        ) && t.asked(c).sequence == t.sequence && t.asked(c).replay,
{
}

/// A run of calls whose times are recorded is given those. One without is measured or, in
/// replay, answered call by call, as if each call were asked for by itself.
pub proof fn law_runs_answered(t: TorchTimes, calls: Seq<CallView>)
    ensures
        ({
            let hash = sequence_hash(calls);
            &&& t.sequence.contains_key(hash) ==> t.sequence_answer(calls) == Some(t.sequence[hash])
                && t.sequence_asked(calls) == t
            &&& !t.sequence.contains_key(hash) && !t.replay ==> t.sequence_answer(calls) is None
                && t.sequence_asked(calls) == t
            &&& !t.sequence.contains_key(hash) && t.replay ==> {
                &&& t.sequence_answer(calls) matches Some(durations)
                &&& durations.len() == calls.len()
                &&& forall|i: int|
                    0 <= i < calls.len() ==> t.asked_all(calls.take(i)).answer(calls[i]) == Some(
                        #[trigger] durations[i],
                    )
                &&& t.sequence_asked(calls) == t.asked_all(calls)
            }
        }),
{
    if !t.sequence.contains_key(sequence_hash(calls)) && t.replay {
        let durations = t.sequence_answer(calls)->0;
        assert forall|i: int| 0 <= i < calls.len() implies t.asked_all(calls.take(i)).answer(
            calls[i],
        ) == Some(#[trigger] durations[i]) by {
            lemma_asked_all(t, calls.take(i), calls[i]);
        }
    }
}

/// Asking for some calls is asking for each of them in turn.
pub proof fn law_asked_in_turn(t: TorchTimes, calls: Seq<CallView>, c: CallView)
    ensures
        t.asked_all(seq![]) == t,
        t.asked_all(calls.push(c)) == t.asked_all(calls).asked(c),
{
    assert(calls.push(c).drop_last() =~= calls);
}

/// A copy whose time is known is given that time. One without is measured on a GPU or,
/// where there is none, charged none and noted as missing the first time.
pub proof fn law_copies_answered(t: CudaTimes, kind: CudaMemcpyKind, size: usize)
    ensures
        t.memcpy.contains_key((kind, size)) ==> t.memcpy_answer(kind, size) == Some(
            t.memcpy[(kind, size)],
        ) && t.memcpy_asked(kind, size) == t,
        !t.memcpy.contains_key((kind, size)) && t.gpu is Some ==> t.memcpy_answer(
            kind,
            size,
        ) is None && t.memcpy_asked(kind, size) == t,
        !t.memcpy.contains_key((kind, size)) && t.gpu is None ==> {
            let n = t.memcpy_asked(kind, size);
            &&& t.memcpy_answer(kind, size) == Some(Duration { nanos: 0 })
            &&& n.missing_memcpy == t.missing_memcpy.push((kind, size))
            &&& n.memcpy == t.memcpy.insert((kind, size), Duration { nanos: 0 })
            &&& n.flash_attn == t.flash_attn
            &&& n.missing_flash == t.missing_flash
            &&& n.gpu is None
        },
{
}

/// A kernel whose time is known is given that time. One without is measured on a GPU or,
/// where there is none, charged none and noted as missing the first time.
pub proof fn law_kernels_answered(t: CudaTimes, key: FlashAttnKey)
    ensures
        t.flash_attn.contains_key(key) ==> t.flash_answer(key) == Some(t.flash_attn[key])
            && t.flash_asked(key) == t,
        !t.flash_attn.contains_key(key) && t.gpu is Some ==> t.flash_answer(key) is None
            && t.flash_asked(key) == t,
        !t.flash_attn.contains_key(key) && t.gpu is None ==> {
            let n = t.flash_asked(key);
            &&& t.flash_answer(key) == Some(Duration { nanos: 0 })
            &&& n.missing_flash == t.missing_flash.push(key)
            &&& n.flash_attn == t.flash_attn.insert(key, Duration { nanos: 0 })
            &&& n.memcpy == t.memcpy
            &&& n.missing_memcpy == t.missing_memcpy
            &&& n.gpu is None
        },
{
}

/// All that is known is recorded, under the name of the GPU that it was measured on.
pub proof fn law_all_recorded(cuda: CudaTimes, torch: TorchTimes, name: Seq<char>)
    ensures
        known_times(cuda, torch).compute == torch.compute,
        known_times(cuda, torch).sequence == torch.sequence,
        known_times(cuda, torch).memcpy == cuda.memcpy,
        known_times(cuda, torch).flash_attn == cuda.flash_attn,
        cuda.gpu == Some(name) ==> known_times(cuda, torch).gpu_name == name,
        cuda.gpu is None ==> known_times(cuda, torch).gpu_name.len() == 0,
{
}

/// What is missing is listed to be measured: every call, copy and kernel that was noted,
/// without a time, and no runs of calls.
pub proof fn law_missing_listed(
    cuda: CudaTimes,
    torch: TorchTimes,
    name: Seq<char>,
    call: CallView,
    copy: (CudaMemcpyKind, usize),
    key: FlashAttnKey,
)
    ensures
        ({
            let db = missing_times(cuda, torch, name);
            &&& db.gpu_name == name
            &&& db.compute.contains_key(call) <==> torch.missing.contains(call)
            &&& db.memcpy.contains_key(copy) <==> cuda.missing_memcpy.contains(copy)
            &&& db.flash_attn.contains_key(key) <==> cuda.missing_flash.contains(key)
            &&& db.compute.contains_key(call) ==> db.compute[call].nanos == 0
            &&& db.memcpy.contains_key(copy) ==> db.memcpy[copy].nanos == 0
            &&& db.flash_attn.contains_key(key) ==> db.flash_attn[key].nanos == 0
            &&& db.sequence == Map::<u64, Seq<Duration>>::empty()
        }),
{
}

/// Recording goes on where nothing was recorded before or it was on the same GPU: what was
/// recorded is taken over and goes before what is known, and all else stays.
pub proof fn law_recording_goes_on(
    cuda: CudaTimes,
    torch: TorchTimes,
    db: DbView,
    call: CallView,
    hash: u64,
    copy: (CudaMemcpyKind, usize),
    key: FlashAttnKey,
    name: Seq<char>,
)
    ensures
        same_gpu(db, name) <==> db.gpu_name == name || db.gpu_name.len() == 0,
        ({
            let t = torch_with(torch, db);
            let c = cuda_with(cuda, db);
            &&& c.gpu == cuda.gpu
            &&& t.replay == torch.replay
            &&& t.missing == torch.missing
            &&& c.missing_memcpy == cuda.missing_memcpy
            &&& c.missing_flash == cuda.missing_flash
            &&& t.compute.contains_key(call) <==> torch.compute.contains_key(call)
                || db.compute.contains_key(call)
            &&& db.compute.contains_key(call) ==> t.compute[call] == db.compute[call]
            &&& torch.compute.contains_key(call) && !db.compute.contains_key(call)
                ==> t.compute[call] == torch.compute[call]
            &&& t.sequence.contains_key(hash) <==> torch.sequence.contains_key(hash)
                || db.sequence.contains_key(hash)
            &&& db.sequence.contains_key(hash) ==> t.sequence[hash] == db.sequence[hash]
            &&& torch.sequence.contains_key(hash) && !db.sequence.contains_key(hash)
                ==> t.sequence[hash] == torch.sequence[hash]
            &&& c.memcpy.contains_key(copy) <==> cuda.memcpy.contains_key(copy)
                || db.memcpy.contains_key(copy)
            &&& db.memcpy.contains_key(copy) ==> c.memcpy[copy] == db.memcpy[copy]
            &&& cuda.memcpy.contains_key(copy) && !db.memcpy.contains_key(copy)
                ==> c.memcpy[copy] == cuda.memcpy[copy]
            &&& c.flash_attn.contains_key(key) <==> cuda.flash_attn.contains_key(key)
                || db.flash_attn.contains_key(key)
            &&& db.flash_attn.contains_key(key) ==> c.flash_attn[key] == db.flash_attn[key]
            &&& cuda.flash_attn.contains_key(key) && !db.flash_attn.contains_key(key)
                ==> c.flash_attn[key] == cuda.flash_attn[key]
        }),
{
}

} // verus!
