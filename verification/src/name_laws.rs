//! How the names under which operators and element types are recorded hang together.

use crate::torch_call::{Kind, TorchOp};
use vstd::prelude::*;

verus! {

/// An operator that writes its operand has the name of the one that does not, with an
/// underscore behind it.
pub proof fn law_names_in_place()
    ensures
        TorchOp::Mul_.text() == TorchOp::Mul.text() + "_"@,
        TorchOp::MulScalar_.text() == TorchOp::MulScalar.text() + "_"@,
        TorchOp::Add_.text() == TorchOp::Add.text() + "_"@,
        TorchOp::MaskedFill_.text() == TorchOp::MaskedFill.text() + "_"@,
{
    reveal_strlit("_");
    reveal_strlit("Add");
    reveal_strlit("Add_");
    reveal_strlit("MaskedFill");
    reveal_strlit("MaskedFill_");
    reveal_strlit("Mul");
    reveal_strlit("MulScalar");
    reveal_strlit("MulScalar_");
    reveal_strlit("Mul_");
    assert(TorchOp::Mul_.text() =~= TorchOp::Mul.text() + "_"@);
    assert(TorchOp::MulScalar_.text() =~= TorchOp::MulScalar.text() + "_"@);
    assert(TorchOp::Add_.text() =~= TorchOp::Add.text() + "_"@);
    assert(TorchOp::MaskedFill_.text() =~= TorchOp::MaskedFill.text() + "_"@);
}

/// An operator that takes a scalar says so behind the name of the one that takes a tensor.
pub proof fn law_names_scalar()
    ensures
        TorchOp::MulScalar.text() == TorchOp::Mul.text() + "Scalar"@,
        TorchOp::DivScalar.text() == TorchOp::Div.text() + "Scalar"@,
        TorchOp::WhereScalar.text() == TorchOp::Where.text() + "Scalar"@,
{
    reveal_strlit("Scalar");
    reveal_strlit("Div");
    reveal_strlit("DivScalar");
    reveal_strlit("Mul");
    reveal_strlit("MulScalar");
    reveal_strlit("Where");
    reveal_strlit("WhereScalar");
    assert(TorchOp::MulScalar.text() =~= TorchOp::Mul.text() + "Scalar"@);
    assert(TorchOp::DivScalar.text() =~= TorchOp::Div.text() + "Scalar"@);
    assert(TorchOp::WhereScalar.text() =~= TorchOp::Where.text() + "Scalar"@);
}

/// An operator on lists says so before the name of the one on tensors.
pub proof fn law_names_foreach()
    ensures
        TorchOp::ForeachMul_.text() == "Foreach"@ + TorchOp::Mul_.text(),
        TorchOp::ForeachMulScalar_.text() == "Foreach"@ + TorchOp::MulScalar_.text(),
        TorchOp::ForeachAddCMul_.text() == "Foreach"@ + TorchOp::AddCMul_.text(),
        TorchOp::ForeachAddCDiv_.text() == "Foreach"@ + TorchOp::AddCDiv_.text(),
{
    reveal_strlit("Foreach");
    reveal_strlit("AddCDiv_");
    reveal_strlit("AddCMul_");
    reveal_strlit("ForeachAddCDiv_");
    reveal_strlit("ForeachAddCMul_");
    reveal_strlit("ForeachMulScalar_");
    reveal_strlit("ForeachMul_");
    reveal_strlit("MulScalar_");
    reveal_strlit("Mul_");
    assert(TorchOp::ForeachMul_.text() =~= "Foreach"@ + TorchOp::Mul_.text());
    assert(TorchOp::ForeachMulScalar_.text() =~= "Foreach"@ + TorchOp::MulScalar_.text());
    assert(TorchOp::ForeachAddCMul_.text() =~= "Foreach"@ + TorchOp::AddCMul_.text());
    assert(TorchOp::ForeachAddCDiv_.text() =~= "Foreach"@ + TorchOp::AddCDiv_.text());
}

/// An operator that runs backward says so behind the name of the one that runs forward.
pub proof fn law_names_backward()
    ensures
        TorchOp::NativeDropoutBackward.text() == TorchOp::NativeDropout.text() + "Backward"@,
        TorchOp::GeluBackward.text() == TorchOp::Gelu.text() + "Backward"@,
        TorchOp::SiluBackward.text() == TorchOp::Silu.text() + "Backward"@,
        TorchOp::LogSoftmaxBackward.text() == TorchOp::LogSoftmax.text() + "Backward"@,
        TorchOp::SoftmaxBackward.text() == TorchOp::Softmax.text() + "Backward"@,
        TorchOp::SDPABackward.text() == TorchOp::SDPA.text() + "Backward"@,
        TorchOp::Conv2dBackward.text() == TorchOp::Conv2d.text() + "Backward"@,
{
    reveal_strlit("Backward");
    reveal_strlit("Conv2d");
    reveal_strlit("Conv2dBackward");
    reveal_strlit("Gelu");
    reveal_strlit("GeluBackward");
    reveal_strlit("LogSoftmax");
    reveal_strlit("LogSoftmaxBackward");
    reveal_strlit("NativeDropout");
    reveal_strlit("NativeDropoutBackward");
    reveal_strlit("SDPA");
    reveal_strlit("SDPABackward");
    reveal_strlit("Silu");
    reveal_strlit("SiluBackward");
    reveal_strlit("Softmax");
    reveal_strlit("SoftmaxBackward");
    assert(TorchOp::NativeDropoutBackward.text() =~= TorchOp::NativeDropout.text() + "Backward"@);
    assert(TorchOp::GeluBackward.text() =~= TorchOp::Gelu.text() + "Backward"@);
    assert(TorchOp::SiluBackward.text() =~= TorchOp::Silu.text() + "Backward"@);
    assert(TorchOp::LogSoftmaxBackward.text() =~= TorchOp::LogSoftmax.text() + "Backward"@);
    assert(TorchOp::SoftmaxBackward.text() =~= TorchOp::Softmax.text() + "Backward"@);
    assert(TorchOp::SDPABackward.text() =~= TorchOp::SDPA.text() + "Backward"@);
    assert(TorchOp::Conv2dBackward.text() =~= TorchOp::Conv2d.text() + "Backward"@);
}

/// A complex element type says so before the name of the type of its parts.
pub proof fn law_names_complex()
    ensures
        Kind::ComplexHalf.text() == "Complex"@ + Kind::Half.text(),
        Kind::ComplexFloat.text() == "Complex"@ + Kind::Float.text(),
        Kind::ComplexDouble.text() == "Complex"@ + Kind::Double.text(),
{
    reveal_strlit("Complex");
    reveal_strlit("ComplexDouble");
    reveal_strlit("ComplexFloat");
    reveal_strlit("ComplexHalf");
    reveal_strlit("Double");
    reveal_strlit("Float");
    reveal_strlit("Half");
    assert(Kind::ComplexHalf.text() =~= "Complex"@ + Kind::Half.text());
    assert(Kind::ComplexFloat.text() =~= "Complex"@ + Kind::Float.text());
    assert(Kind::ComplexDouble.text() =~= "Complex"@ + Kind::Double.text());
}

/// The names of an operator's arguments, where they have names.
pub open spec fn argument_names(op: TorchOp) -> Seq<Seq<char>> {
    match op {
        TorchOp::SDPA => attention_names() + seq!["mask"@, "causal"@, "gqa"@],
        TorchOp::SDPAEfficientBackward => attention_names() + seq!["bias"@, "causal"@],
        TorchOp::SDPABackward => seq!["grad"@] + attention_names() + seq![
            "out"@,
            "logsumexp"@,
            "max_q"@,
            "max_k"@,
            "causal"@,
        ],
        TorchOp::Conv2d => seq!["input"@, "weight"@, "bias"@] + stride_names() + seq![
            "dilation"@,
            "groups"@,
        ],
        TorchOp::Conv2dBackward => seq!["grad_output"@, "input"@, "weight"@, "kernel"@]
            + stride_names(),
        _ => seq![],
    }
}

/// The names of queries, keys and values.
pub open spec fn attention_names() -> Seq<Seq<char>> {
    seq!["q"@, "k"@, "v"@]
}

/// The names of how a convolution steps.
pub open spec fn stride_names() -> Seq<Seq<char>> {
    seq!["stride"@, "padding"@]
}

/// Attention and convolutions have names for their arguments, one for each, and no other
/// operator has.
pub proof fn law_argument_names(op: TorchOp)
    ensures
        op.fields() is Some <==> op == TorchOp::SDPA || op == TorchOp::SDPAEfficientBackward || op
            == TorchOp::SDPABackward || op == TorchOp::Conv2d || op == TorchOp::Conv2dBackward,
        op.fields() matches Some(names) ==> names == argument_names(op) && names.len()
            == op.takes().len(),
{
    if let Some(names) = op.fields() {
        assert(names =~= argument_names(op));
    }
}

} // verus!
