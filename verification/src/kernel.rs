//! How an operator is measured: which tensors it is run on, in which order they are
//! taken, and which tensors are kept afterwards.

use crate::tensor_cache::{
    after_use, countable, is_countable, source, Entries, Operand, OperandSource, TensorCache,
};
use crate::torch_call::{
    ArgView, CallView, Kind, TensorInfo, TensorView, TorchArg, TorchCallInfo, TorchOp,
};
use crate::torch_op::{is_well_typed, kind_of_arg, well_typed, ArgKind};
use vstd::prelude::*;

verus! {

/// How often an operator is run before it is timed, when it is measured by itself.
pub const CALL_WARMUPS: i32 = 2;

/// How often an operator is run before it is timed, when it is measured in a run of
/// calls.
pub const SEQUENCE_WARMUPS: i32 = 1;

/// The tensors of an argument.
pub open spec fn arg_tensors(a: ArgView) -> Seq<TensorView> {
    match a {
        ArgView::Tensor(t) => seq![t],
        ArgView::Optional(Some(t)) => seq![t],
        ArgView::List(l) => l,
        _ => seq![],
    }
}

/// The order in which an operator's arguments get their tensors: as they come, but for
/// those whose first argument comes last.
pub open spec fn arg_order(op: TorchOp) -> Seq<int> {
    match op {
        TorchOp::ForeachMul_ => seq![1, 0],
        TorchOp::ForeachAddCMul_
        | TorchOp::ForeachAddCDiv_
        | TorchOp::Conv2dBackward => seq![1, 2, 0],
        _ => Seq::new(op.takes().len(), |i: int| i),
    }
}

/// The tensors of an argument, each with the number of the argument.
pub open spec fn numbered(arg: int, tensors: Seq<TensorView>) -> Seq<(int, TensorView)> {
    tensors.map_values(|t: TensorView| (arg, t))
}

/// The tensors of the first `n` arguments in an operator's order.
pub open spec fn operands_below(c: CallView, n: int) -> Seq<(int, TensorView)>
    decreases n,
{
    if n <= 0 {
        seq![]
    } else {
        let arg = arg_order(c.op)[n - 1];
        operands_below(c, n - 1) + numbered(arg, arg_tensors(c.args[arg]))
    }
}

/// The tensors that a call is measured on, in the order in which they are taken, each
/// with the number of the argument that it is for.
pub open spec fn operands(c: CallView) -> Seq<(int, TensorView)> {
    operands_below(c, arg_order(c.op).len() as int)
}

/// Whether a call can be measured: its arguments are those that its operator takes, the
/// elements of its tensors can be counted, and a weight to take a gradient by has a
/// dimension.
pub open spec fn measurable(c: CallView) -> bool {
    &&& well_typed(c)
    &&& forall|i: int, j: int|
        0 <= i < c.args.len() && 0 <= j < arg_tensors(c.args[i]).len() ==> countable(
            (#[trigger] arg_tensors(c.args[i])[j]).shape,
        )
    &&& c.op == TorchOp::Conv2dBackward ==> arg_tensors(c.args[2])[0].shape.len() > 0
}

/// A tensor and the number of the argument that it is for.
#[derive(Debug, PartialEq, Eq)]
pub struct Placed {
    pub arg: usize,
    pub operand: Operand,
}

/// What some placed tensors stand for.
pub open spec fn placed_views(l: Seq<Placed>) -> Seq<(int, OperandSource)> {
    l.map_values(|p: Placed| (p.arg as int, p.operand@))
}

/// What the cache holds after some tensors were taken, one after the other.
pub open spec fn taken(e: Entries, ts: Seq<(int, TensorView)>) -> Entries
    decreases ts.len(),
{
    if ts.len() == 0 {
        e
    } else {
        after_use(taken(e, ts.drop_last()), ts.last().1)
    }
}

/// Where some tensors come from that are taken one after the other.
pub open spec fn sources(e: Entries, ts: Seq<(int, TensorView)>) -> Seq<(int, OperandSource)> {
    Seq::new(
        ts.len(),
        |i: int| (ts[i].0, source(taken(e, ts.take(i)), ts[i].1)),
    )
}

proof fn lemma_taken_push(e: Entries, ts: Seq<(int, TensorView)>, t: (int, TensorView))
    ensures
        taken(e, ts.push(t)) == after_use(taken(e, ts), t.1),
        sources(e, ts.push(t)) == sources(e, ts).push((t.0, source(taken(e, ts), t.1))),
{
    let all = ts.push(t);
    assert(all.drop_last() =~= ts);
    assert(all.take(ts.len() as int) =~= ts);
    assert forall|i: int| 0 <= i < ts.len() implies all.take(i) == #[trigger] ts.take(i) by {
        assert(all.take(i) =~= ts.take(i));
    }
    let a = sources(e, all);
    let b = sources(e, ts).push((t.0, source(taken(e, ts), t.1)));
    assert forall|i: int| 0 <= i < all.len() implies a[i] == b[i] by {
        if i < ts.len() {
            assert(all.take(i) == ts.take(i));
        }
    }
    assert(a =~= b);
}

/// Whether a call is run with automatic casts: a linear map with a weight in full
/// precision is.
pub open spec fn casts(c: CallView) -> bool {
    c.op == TorchOp::Linear && match c.args[1] {
        ArgView::Tensor(t) => t.dtype == Kind::Float || t.dtype == Kind::Double,
        _ => false,
    }
}

/// What is kept after a call was measured.
#[derive(Clone, Copy, Debug, PartialEq, Eq, Structural)]
pub enum Kept {
    /// A result of the call, by its number.
    Result(usize),
    /// The tensor that was taken for an argument, by its number.
    Operand(usize),
    /// The gradient by the bias.
    BiasGradient,
}

/// What is kept after a call of an operator was measured, in this order.
pub open spec fn keeps(op: TorchOp) -> Seq<Kept> {
    match op {
        TorchOp::ForeachMul_
        | TorchOp::ForeachMulScalar_
        | TorchOp::ForeachAddCMul_
        | TorchOp::ForeachAddCDiv_
        | TorchOp::SDPAEfficientBackward => seq![],
        TorchOp::NativeDropout
        | TorchOp::FusedDropout => seq![Kept::Result(0), Kept::Result(1)],
        TorchOp::SDPABackward => seq![Kept::Operand(0), Kept::Operand(4)],
        TorchOp::Conv2dBackward => seq![Kept::BiasGradient],
        _ => seq![Kept::Result(0)],
    }
}

/// What is kept after a call of an operator was measured, in this order.
pub fn kept_tensors(op: TorchOp) -> (r: Vec<Kept>)
    ensures
        r@ == keeps(op),
{
    let r: Vec<Kept> = match op {
        TorchOp::ForeachMul_
        | TorchOp::ForeachMulScalar_
        | TorchOp::ForeachAddCMul_
        | TorchOp::ForeachAddCDiv_
        | TorchOp::SDPAEfficientBackward => Vec::new(),
        TorchOp::NativeDropout
        | TorchOp::FusedDropout => vec![Kept::Result(0), Kept::Result(1)],
        TorchOp::SDPABackward => vec![Kept::Operand(0), Kept::Operand(4)],
        TorchOp::Conv2dBackward => vec![Kept::BiasGradient],
        _ => vec![Kept::Result(0)],
    };
    assert(r@ =~= keeps(op));
    r
}

/// The gradient by the bias that a call computes, if it does: one number for each output
/// channel.
pub open spec fn bias_gradient(c: CallView) -> Option<TensorView> {
    if c.op == TorchOp::Conv2dBackward {
        match c.args[2] {
            ArgView::Tensor(weight) => Some(
                TensorView { shape: seq![weight.shape[0]], dtype: weight.dtype },
            ),
            _ => None,
        }
    } else {
        None
    }
}

/// A call that is ready to be measured.
#[derive(Debug, PartialEq, Eq)]
pub struct Kernel {
    /// The operator.
    pub op: TorchOp,
    /// The tensors to run it on, in the order in which they are taken.
    pub operands: Vec<Placed>,
    /// Whether it is run with automatic casts.
    pub autocast: bool,
    /// An uninitialised tensor for the gradient by the bias, if it takes one.
    pub bias_gradient: Option<TensorInfo>,
    /// What is kept afterwards.
    pub keep: Vec<Kept>,
}

/// The order in which an operator's arguments get their tensors.
fn order_of(op: TorchOp) -> (r: Vec<usize>)
    ensures
        r@.map_values(|i: usize| i as int) == arg_order(op),
        forall|i: int| 0 <= i < r@.len() ==> (#[trigger] r@[i]) < op.takes().len(),
{
    let mut r: Vec<usize> = Vec::new();
    match op {
        TorchOp::ForeachMul_ => {
            r.push(1);
            r.push(0);
        },
        TorchOp::ForeachAddCMul_ | TorchOp::ForeachAddCDiv_ | TorchOp::Conv2dBackward => {
            r.push(1);
            r.push(2);
            r.push(0);
        },
        _ => {
            let n = op.arg_kinds().len();
            let mut i: usize = 0;
            while i < n
                invariant
                    i <= n,
                    r@.len() == i,
                    forall|j: int| 0 <= j < i ==> #[trigger] r@[j] == j,
                decreases n - i,
            {
                r.push(i);
                i += 1;
            }
        },
    }
    assert(r@.map_values(|i: usize| i as int) =~= arg_order(op));
    r
}

/// The tensors of an argument.
fn tensors_of(a: &TorchArg) -> (r: Vec<&TensorInfo>)
    ensures
        r@.map_values(|t: &TensorInfo| t@) == arg_tensors(a@),
{
    let mut r: Vec<&TensorInfo> = Vec::new();
    match a {
        TorchArg::Tensor(t) => {
            r.push(t);
        },
        TorchArg::Optional(Some(t)) => {
            r.push(t);
        },
        TorchArg::List(l) => {
            let mut i: usize = 0;
            while i < l.len()
                invariant
                    i <= l@.len(),
                    r@.len() == i,
                    forall|j: int| 0 <= j < i ==> (#[trigger] r@[j])@ == l@[j]@,
                decreases l@.len() - i,
            {
                r.push(&l[i]);
                i += 1;
            }
        },
        _ => {},
    }
    assert(r@.map_values(|t: &TensorInfo| t@) =~= arg_tensors(a@));
    r
}

/// Takes the tensors of one argument, one after the other.
fn take_tensors(
    cache: &mut TensorCache,
    arg: usize,
    tensors: &Vec<&TensorInfo>,
    out: &mut Vec<Placed>,
    Ghost(start): Ghost<Entries>,
    Ghost(before): Ghost<Seq<(int, TensorView)>>,
)
    requires
        old(cache).well_formed(),
        old(cache)@ == taken(start, before),
        placed_views(old(out)@) == sources(start, before),
        forall|i: int| 0 <= i < tensors@.len() ==> countable((#[trigger] tensors@[i])@.shape),
    ensures
        final(cache).well_formed(),
        ({
            let all = before + numbered(
                arg as int,
                tensors@.map_values(|t: &TensorInfo| t@),
            );
            &&& final(cache)@ == taken(start, all)
            &&& placed_views(final(out)@) == sources(start, all)
        }),
{
    let ghost ts = numbered(arg as int, tensors@.map_values(|t: &TensorInfo| t@));
    let mut i: usize = 0;
    assert(before + ts.take(0) =~= before);
    while i < tensors.len()
        invariant
            i <= tensors@.len(),
            ts == numbered(arg as int, tensors@.map_values(|t: &TensorInfo| t@)),
            cache.well_formed(),
            cache@ == taken(start, before + ts.take(i as int)),
            placed_views(out@) == sources(start, before + ts.take(i as int)),
            forall|i: int| 0 <= i < tensors@.len() ==> countable((#[trigger] tensors@[i])@.shape),
        decreases tensors@.len() - i,
    {
        let ghost prev = out@;
        proof {
            lemma_taken_push(start, before + ts.take(i as int), ts[i as int]);
            assert(before + ts.take(i + 1) =~= (before + ts.take(i as int)).push(ts[i as int]));
            assert(countable(tensors@[i as int]@.shape));
        }
        let operand = cache.allocate(tensors[i]);
        out.push(Placed { arg, operand });
        assert(placed_views(out@) =~= placed_views(prev).push((arg as int, operand@)));
        i += 1;
    }
    assert(ts.take(ts.len() as int) =~= ts);
}

/// Whether a call can be measured.
pub fn is_measurable(call: &TorchCallInfo) -> (b: bool)
    ensures
        b == measurable(call@),
{
    let ghost c = call@;
    if !is_well_typed(call) {
        return false;
    }
    let mut i: usize = 0;
    while i < call.args.len()
        invariant
            i <= call.args@.len(),
            c == call@,
            forall|k: int, j: int|
                0 <= k < i && 0 <= j < arg_tensors(c.args[k]).len() ==> countable(
                    (#[trigger] arg_tensors(c.args[k])[j]).shape,
                ),
        decreases call.args@.len() - i,
    {
        let tensors = tensors_of(&call.args[i]);
        assert(c.args[i as int] == call.args@[i as int]@);
        let ghost ts = arg_tensors(c.args[i as int]);
        let mut n: usize = 0;
        while n < tensors.len()
            invariant
                n <= tensors@.len(),
                i < call.args@.len(),
                c == call@,
                ts == arg_tensors(c.args[i as int]),
                tensors@.map_values(|t: &TensorInfo| t@) == ts,
                forall|j: int| 0 <= j < n ==> countable((#[trigger] ts[j]).shape),
            decreases tensors@.len() - n,
        {
            assert(tensors@.map_values(|t: &TensorInfo| t@)[n as int] == tensors@[n as int]@);
            if !is_countable(&tensors[n].shape) {
                assert(!countable(arg_tensors(c.args[i as int])[n as int].shape));
                return false;
            }
            n += 1;
        }
        assert(ts.len() == tensors@.len());
        i += 1;
    }
    match call.op {
        TorchOp::Conv2dBackward => {
            assert(c.args[2] == call.args@[2]@);
            assert(kind_of_arg(c.args[2]) == ArgKind::Tensor);
            match &call.args[2] {
                TorchArg::Tensor(weight) => weight.shape.len() > 0,
                _ => false,
            }
        },
        _ => true,
    }
}

/// Each argument that can hold tensors gets them, and gets them once.
pub proof fn law_every_tensor_taken_once(op: TorchOp)
    ensures
        arg_order(op).no_duplicates(),
        forall|i: int|
            0 <= i < arg_order(op).len() ==> 0 <= #[trigger] arg_order(op)[i] < op.takes().len(),
        forall|a: int|
            0 <= a < op.takes().len() && (op.takes()[a] == ArgKind::Tensor || op.takes()[a]
                == ArgKind::Optional || op.takes()[a] == ArgKind::List)
                ==> #[trigger] arg_order(op).contains(a),
{
    let order = arg_order(op);
    assert forall|a: int|
        0 <= a < op.takes().len() && (op.takes()[a] == ArgKind::Tensor || op.takes()[a]
            == ArgKind::Optional || op.takes()[a] == ArgKind::List) implies #[trigger] order.contains(
        a,
    ) by {
        match op {
            TorchOp::ForeachMul_ => {
                assert(order[0] == 1 && order[1] == 0);
            },
            TorchOp::ForeachAddCMul_ | TorchOp::ForeachAddCDiv_ | TorchOp::Conv2dBackward => {
                assert(order[0] == 1 && order[1] == 2 && order[2] == 0);
            },
            _ => {
                assert(order[a] == a);
            },
        }
    }
}

impl TensorCache {
    /// Makes a call ready to be measured: takes its tensors, in its operator's order.
    pub fn prepare(&mut self, call: &TorchCallInfo) -> (r: Kernel)
        requires
            old(self).well_formed(),
            measurable(call@),
        ensures
            final(self).well_formed(),
            final(self)@ == taken(old(self)@, operands(call@)),
            r.op == call.op,
            placed_views(r.operands@) == sources(old(self)@, operands(call@)),
            r.autocast == casts(call@),
            match r.bias_gradient {
                Some(t) => bias_gradient(call@) == Some(t@),
                None => bias_gradient(call@) is None,
            },
            r.keep@ == keeps(call.op),
    {
        let ghost start = self@;
        let ghost c = call@;
        let order = order_of(call.op);
        let ghost argsv = c.args;
        let mut out: Vec<Placed> = Vec::new();
        assert(placed_views(out@) =~= sources(start, operands_below(c, 0)));
        let mut i: usize = 0;
        while i < order.len()
            invariant
                i <= order@.len(),
                c == call@,
                measurable(c),
                order@.map_values(|i: usize| i as int) == arg_order(c.op),
                forall|i: int| 0 <= i < order@.len() ==> (#[trigger] order@[i]) < c.op.takes().len(),
                self.well_formed(),
                self@ == taken(start, operands_below(c, i as int)),
                placed_views(out@) == sources(start, operands_below(c, i as int)),
            decreases order@.len() - i,
        {
            let arg = order[i];
            assert(arg_order(c.op)[i as int] == arg as int);
            assert(c.args[arg as int] == call.args@[arg as int]@);
            let tensors = tensors_of(&call.args[arg]);
            proof {
                assert forall|j: int| 0 <= j < tensors@.len() implies countable(
                    (#[trigger] tensors@[j])@.shape,
                ) by {
                    assert(tensors@.map_values(|t: &TensorInfo| t@)[j] == arg_tensors(
                        c.args[arg as int],
                    )[j]);
                }
            }
            take_tensors(
                self,
                arg,
                &tensors,
                &mut out,
                Ghost(start),
                Ghost(operands_below(c, i as int)),
            );
            i += 1;
        }
        let mut autocast: bool = false;
        let mut gradient: Option<TensorInfo> = None;
        match call.op {
            TorchOp::Linear => {
                assert(c.args[1] == call.args@[1]@);
                if let TorchArg::Tensor(t) = &call.args[1] {
                    autocast = t.dtype == Kind::Float || t.dtype == Kind::Double;
                }
            },
            TorchOp::Conv2dBackward => {
                assert(c.args[2] == call.args@[2]@);
                if let TorchArg::Tensor(weight) = &call.args[2] {
                    let shape: Vec<i64> = vec![weight.shape[0]];
                    assert(shape@ =~= seq![weight.shape@[0]]);
                    gradient = Some(TensorInfo { shape, dtype: weight.dtype });
                }
            },
            _ => {},
        }
        Kernel {
            op: call.op,
            operands: out,
            autocast,
            bias_gradient: gradient,
            keep: kept_tensors(call.op),
        }
    }
}

} // verus!
