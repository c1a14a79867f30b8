//! The names of operators and element types, and what operators take.

use crate::text::same_text;
use crate::torch_call::{ArgView, CallView, Kind, TorchArg, TorchCallInfo, TorchOp};
use vstd::prelude::*;

verus! {

impl Kind {
    /// The name under which it is recorded.
    pub open spec fn text(self) -> Seq<char> {
        match self {
            Kind::Uint8 => "Uint8"@,
            Kind::Int8 => "Int8"@,
            Kind::Int16 => "Int16"@,
            Kind::Int => "Int"@,
            Kind::Int64 => "Int64"@,
            Kind::Half => "Half"@,
            Kind::Float => "Float"@,
            Kind::Double => "Double"@,
            Kind::ComplexHalf => "ComplexHalf"@,
            Kind::ComplexFloat => "ComplexFloat"@,
            Kind::ComplexDouble => "ComplexDouble"@,
            Kind::Bool => "Bool"@,
            Kind::QInt8 => "QInt8"@,
            Kind::QUInt8 => "QUInt8"@,
            Kind::QInt32 => "QInt32"@,
            Kind::BFloat16 => "BFloat16"@,
            Kind::Float8e5m2 => "Float8e5m2"@,
            Kind::Float8e4m3fn => "Float8e4m3fn"@,
            Kind::Float8e5m2fnuz => "Float8e5m2fnuz"@,
            Kind::Float8e4m3fnuz => "Float8e4m3fnuz"@,
            Kind::UInt16 => "UInt16"@,
            Kind::UInt32 => "UInt32"@,
            Kind::UInt64 => "UInt64"@,
        }
    }

    /// The name under which it is recorded.
    pub fn name(self) -> (s: &'static str)
        ensures
            s@ == self.text(),
    {
        match self {
            Kind::Uint8 => "Uint8",
            Kind::Int8 => "Int8",
            Kind::Int16 => "Int16",
            Kind::Int => "Int",
            Kind::Int64 => "Int64",
            Kind::Half => "Half",
            Kind::Float => "Float",
            Kind::Double => "Double",
            Kind::ComplexHalf => "ComplexHalf",
            Kind::ComplexFloat => "ComplexFloat",
            Kind::ComplexDouble => "ComplexDouble",
            Kind::Bool => "Bool",
            Kind::QInt8 => "QInt8",
            Kind::QUInt8 => "QUInt8",
            Kind::QInt32 => "QInt32",
            Kind::BFloat16 => "BFloat16",
            Kind::Float8e5m2 => "Float8e5m2",
            Kind::Float8e4m3fn => "Float8e4m3fn",
            Kind::Float8e5m2fnuz => "Float8e5m2fnuz",
            Kind::Float8e4m3fnuz => "Float8e4m3fnuz",
            Kind::UInt16 => "UInt16",
            Kind::UInt32 => "UInt32",
            Kind::UInt64 => "UInt64",
        }
    }
}

/// The element type that has a name.
pub open spec fn kind_of(name: Seq<char>) -> Option<Kind> {
    if name == "Uint8"@ {
        Some(Kind::Uint8)
    } else if name == "Int8"@ {
        Some(Kind::Int8)
    } else if name == "Int16"@ {
        Some(Kind::Int16)
    } else if name == "Int"@ {
        Some(Kind::Int)
    } else if name == "Int64"@ {
        Some(Kind::Int64)
    } else if name == "Half"@ {
        Some(Kind::Half)
    } else if name == "Float"@ {
        Some(Kind::Float)
    } else if name == "Double"@ {
        Some(Kind::Double)
    } else if name == "ComplexHalf"@ {
        Some(Kind::ComplexHalf)
    } else if name == "ComplexFloat"@ {
        Some(Kind::ComplexFloat)
    } else if name == "ComplexDouble"@ {
        Some(Kind::ComplexDouble)
    } else if name == "Bool"@ {
        Some(Kind::Bool)
    } else if name == "QInt8"@ {
        Some(Kind::QInt8)
    } else if name == "QUInt8"@ {
        Some(Kind::QUInt8)
    } else if name == "QInt32"@ {
        Some(Kind::QInt32)
    } else if name == "BFloat16"@ {
        Some(Kind::BFloat16)
    } else if name == "Float8e5m2"@ {
        Some(Kind::Float8e5m2)
    } else if name == "Float8e4m3fn"@ {
        Some(Kind::Float8e4m3fn)
    } else if name == "Float8e5m2fnuz"@ {
        Some(Kind::Float8e5m2fnuz)
    } else if name == "Float8e4m3fnuz"@ {
        Some(Kind::Float8e4m3fnuz)
    } else if name == "UInt16"@ {
        Some(Kind::UInt16)
    } else if name == "UInt32"@ {
        Some(Kind::UInt32)
    } else if name == "UInt64"@ {
        Some(Kind::UInt64)
    } else {
        None
    }
}

/// The element type that has a name.
pub fn kind_from_name(name: &str) -> (r: Option<Kind>)
    ensures
        r == kind_of(name@),
{
    if same_text(name, "Uint8") {
        Some(Kind::Uint8)
    } else if same_text(name, "Int8") {
        Some(Kind::Int8)
    } else if same_text(name, "Int16") {
        Some(Kind::Int16)
    } else if same_text(name, "Int") {
        Some(Kind::Int)
    } else if same_text(name, "Int64") {
        Some(Kind::Int64)
    } else if same_text(name, "Half") {
        Some(Kind::Half)
    } else if same_text(name, "Float") {
        Some(Kind::Float)
    } else if same_text(name, "Double") {
        Some(Kind::Double)
    } else if same_text(name, "ComplexHalf") {
        Some(Kind::ComplexHalf)
    } else if same_text(name, "ComplexFloat") {
        Some(Kind::ComplexFloat)
    } else if same_text(name, "ComplexDouble") {
        Some(Kind::ComplexDouble)
    } else if same_text(name, "Bool") {
        Some(Kind::Bool)
    } else if same_text(name, "QInt8") {
        Some(Kind::QInt8)
    } else if same_text(name, "QUInt8") {
        Some(Kind::QUInt8)
    } else if same_text(name, "QInt32") {
        Some(Kind::QInt32)
    } else if same_text(name, "BFloat16") {
        Some(Kind::BFloat16)
    } else if same_text(name, "Float8e5m2") {
        Some(Kind::Float8e5m2)
    } else if same_text(name, "Float8e4m3fn") {
        Some(Kind::Float8e4m3fn)
    } else if same_text(name, "Float8e5m2fnuz") {
        Some(Kind::Float8e5m2fnuz)
    } else if same_text(name, "Float8e4m3fnuz") {
        Some(Kind::Float8e4m3fnuz)
    } else if same_text(name, "UInt16") {
        Some(Kind::UInt16)
    } else if same_text(name, "UInt32") {
        Some(Kind::UInt32)
    } else if same_text(name, "UInt64") {
        Some(Kind::UInt64)
    } else {
        None
    }
}

/// Each element type is found by its name.
#[verifier::spinoff_prover]
#[verifier::rlimit(60)]
pub proof fn law_kind_names(x: Kind)
    ensures
        kind_of(x.text()) == Some(x),
        x.text().len() > 1,
{
    reveal_strlit("Uint8");
    reveal_strlit("Int8");
    reveal_strlit("Int16");
    reveal_strlit("Int");
    reveal_strlit("Int64");
    reveal_strlit("Half");
    reveal_strlit("Float");
    reveal_strlit("Double");
    reveal_strlit("ComplexHalf");
    reveal_strlit("ComplexFloat");
    reveal_strlit("ComplexDouble");
    reveal_strlit("Bool");
    reveal_strlit("QInt8");
    reveal_strlit("QUInt8");
    reveal_strlit("QInt32");
    reveal_strlit("BFloat16");
    reveal_strlit("Float8e5m2");
    reveal_strlit("Float8e4m3fn");
    reveal_strlit("Float8e5m2fnuz");
    reveal_strlit("Float8e4m3fnuz");
    reveal_strlit("UInt16");
    reveal_strlit("UInt32");
    reveal_strlit("UInt64");
    assert("Int"@.len() == 3);
    assert("Int8"@.len() == 4 && "Int8"@[0] == 'I');
    assert("Half"@.len() == 4 && "Half"@[0] == 'H');
    assert("Bool"@.len() == 4 && "Bool"@[0] == 'B');
    assert("Uint8"@.len() == 5 && "Uint8"@[0] == 'U' && "Uint8"@[3] == 't');
    assert("Int16"@.len() == 5 && "Int16"@[0] == 'I' && "Int16"@[3] == '1');
    assert("Int64"@.len() == 5 && "Int64"@[0] == 'I' && "Int64"@[3] == '6');
    assert("Float"@.len() == 5 && "Float"@[0] == 'F' && "Float"@[3] == 'a');
    assert("QInt8"@.len() == 5 && "QInt8"@[0] == 'Q' && "QInt8"@[3] == 't');
    assert("Double"@.len() == 6 && "Double"@[0] == 'D' && "Double"@[4] == 'l');
    assert("QUInt8"@.len() == 6 && "QUInt8"@[0] == 'Q' && "QUInt8"@[4] == 't');
    assert("QInt32"@.len() == 6 && "QInt32"@[0] == 'Q' && "QInt32"@[4] == '3');
    assert("UInt16"@.len() == 6 && "UInt16"@[0] == 'U' && "UInt16"@[4] == '1');
    assert("UInt32"@.len() == 6 && "UInt32"@[0] == 'U' && "UInt32"@[4] == '3');
    assert("UInt64"@.len() == 6 && "UInt64"@[0] == 'U' && "UInt64"@[4] == '6');
    assert("BFloat16"@.len() == 8);
    assert("Float8e5m2"@.len() == 10);
    assert("ComplexHalf"@.len() == 11);
    assert("ComplexFloat"@.len() == 12 && "ComplexFloat"@[0] == 'C');
    assert("Float8e4m3fn"@.len() == 12 && "Float8e4m3fn"@[0] == 'F');
    assert("ComplexDouble"@.len() == 13);
    assert("Float8e5m2fnuz"@.len() == 14 && "Float8e5m2fnuz"@[7] == '5');
    assert("Float8e4m3fnuz"@.len() == 14 && "Float8e4m3fnuz"@[7] == '4');
}

/// What an argument of an operator is.
#[derive(Clone, Copy, Debug, PartialEq, Eq, Structural)]
pub enum ArgKind {
    Tensor,
    Optional,
    List,
    Int,
    Ints,
    Flag,
    Dtype,
}

impl TorchOp {
    /// The name under which it is recorded.
    pub open spec fn text(self) -> Seq<char> {
        match self {
            TorchOp::MM => "MM"@,
            TorchOp::MatMul => "MatMul"@,
            TorchOp::Linear => "Linear"@,
            TorchOp::BMM => "BMM"@,
            TorchOp::AddMM => "AddMM"@,
            TorchOp::BAddBMM => "BAddBMM"@,
            TorchOp::Mul => "Mul"@,
            TorchOp::MulScalar => "MulScalar"@,
            TorchOp::Mul_ => "Mul_"@,
            TorchOp::MulScalar_ => "MulScalar_"@,
            TorchOp::ForeachMul_ => "ForeachMul_"@,
            TorchOp::ForeachMulScalar_ => "ForeachMulScalar_"@,
            TorchOp::Add => "Add"@,
            TorchOp::Add_ => "Add_"@,
            TorchOp::Div => "Div"@,
            TorchOp::DivScalar => "DivScalar"@,
            TorchOp::Pow => "Pow"@,
            TorchOp::AddCMul_ => "AddCMul_"@,
            TorchOp::AddCDiv_ => "AddCDiv_"@,
            TorchOp::ForeachAddCMul_ => "ForeachAddCMul_"@,
            TorchOp::ForeachAddCDiv_ => "ForeachAddCDiv_"@,
            TorchOp::MaskedFill => "MaskedFill"@,
            TorchOp::MaskedFill_ => "MaskedFill_"@,
            TorchOp::Dropout => "Dropout"@,
            TorchOp::NativeDropout => "NativeDropout"@,
            TorchOp::NativeDropoutBackward => "NativeDropoutBackward"@,
            TorchOp::FusedDropout => "FusedDropout"@,
            TorchOp::Where => "Where"@,
            TorchOp::WhereScalar => "WhereScalar"@,
            TorchOp::Gelu => "Gelu"@,
            TorchOp::GeluBackward => "GeluBackward"@,
            TorchOp::Silu => "Silu"@,
            TorchOp::SiluBackward => "SiluBackward"@,
            TorchOp::ToCopyUpcast => "ToCopyUpcast"@,
            TorchOp::LogSoftmax => "LogSoftmax"@,
            TorchOp::LogSoftmaxBackward => "LogSoftmaxBackward"@,
            TorchOp::CrossEntropyLoss => "CrossEntropyLoss"@,
            TorchOp::NllLossBackward => "NllLossBackward"@,
            TorchOp::Mean => "Mean"@,
            TorchOp::Sum => "Sum"@,
            TorchOp::Sqrt => "Sqrt"@,
            TorchOp::Rsqrt => "Rsqrt"@,
            TorchOp::Neg => "Neg"@,
            TorchOp::Cat => "Cat"@,
            TorchOp::Softmax => "Softmax"@,
            TorchOp::SoftmaxBackward => "SoftmaxBackward"@,
            TorchOp::ZerosLike => "ZerosLike"@,
            TorchOp::ConvDType => "ConvDType"@,
            TorchOp::SDPA => "SDPA"@,
            TorchOp::SDPAEfficientBackward => "SDPAEfficientBackward"@,
            TorchOp::SDPABackward => "SDPABackward"@,
            TorchOp::Conv2d => "Conv2d"@,
            TorchOp::Conv2dBackward => "Conv2dBackward"@,
        }
    }

    /// The name under which it is recorded.
    pub fn name(self) -> (s: &'static str)
        ensures
            s@ == self.text(),
    {
        match self {
            TorchOp::MM => "MM",
            TorchOp::MatMul => "MatMul",
            TorchOp::Linear => "Linear",
            TorchOp::BMM => "BMM",
            TorchOp::AddMM => "AddMM",
            TorchOp::BAddBMM => "BAddBMM",
            TorchOp::Mul => "Mul",
            TorchOp::MulScalar => "MulScalar",
            TorchOp::Mul_ => "Mul_",
            TorchOp::MulScalar_ => "MulScalar_",
            TorchOp::ForeachMul_ => "ForeachMul_",
            TorchOp::ForeachMulScalar_ => "ForeachMulScalar_",
            TorchOp::Add => "Add",
            TorchOp::Add_ => "Add_",
            TorchOp::Div => "Div",
            TorchOp::DivScalar => "DivScalar",
            TorchOp::Pow => "Pow",
            TorchOp::AddCMul_ => "AddCMul_",
            TorchOp::AddCDiv_ => "AddCDiv_",
            TorchOp::ForeachAddCMul_ => "ForeachAddCMul_",
            TorchOp::ForeachAddCDiv_ => "ForeachAddCDiv_",
            TorchOp::MaskedFill => "MaskedFill",
            TorchOp::MaskedFill_ => "MaskedFill_",
            TorchOp::Dropout => "Dropout",
            TorchOp::NativeDropout => "NativeDropout",
            TorchOp::NativeDropoutBackward => "NativeDropoutBackward",
            TorchOp::FusedDropout => "FusedDropout",
            TorchOp::Where => "Where",
            TorchOp::WhereScalar => "WhereScalar",
            TorchOp::Gelu => "Gelu",
            TorchOp::GeluBackward => "GeluBackward",
            TorchOp::Silu => "Silu",
            TorchOp::SiluBackward => "SiluBackward",
            TorchOp::ToCopyUpcast => "ToCopyUpcast",
            TorchOp::LogSoftmax => "LogSoftmax",
            TorchOp::LogSoftmaxBackward => "LogSoftmaxBackward",
            TorchOp::CrossEntropyLoss => "CrossEntropyLoss",
            TorchOp::NllLossBackward => "NllLossBackward",
            TorchOp::Mean => "Mean",
            TorchOp::Sum => "Sum",
            TorchOp::Sqrt => "Sqrt",
            TorchOp::Rsqrt => "Rsqrt",
            TorchOp::Neg => "Neg",
            TorchOp::Cat => "Cat",
            TorchOp::Softmax => "Softmax",
            TorchOp::SoftmaxBackward => "SoftmaxBackward",
            TorchOp::ZerosLike => "ZerosLike",
            TorchOp::ConvDType => "ConvDType",
            TorchOp::SDPA => "SDPA",
            TorchOp::SDPAEfficientBackward => "SDPAEfficientBackward",
            TorchOp::SDPABackward => "SDPABackward",
            TorchOp::Conv2d => "Conv2d",
            TorchOp::Conv2dBackward => "Conv2dBackward",
        }
    }

    /// What its arguments are.
    pub open spec fn takes(self) -> Seq<ArgKind> {
        match self {
            TorchOp::MM
            | TorchOp::MatMul
            | TorchOp::BMM
            | TorchOp::Mul
            | TorchOp::Mul_
            | TorchOp::Add
            | TorchOp::Add_
            | TorchOp::Div
            | TorchOp::MaskedFill
            | TorchOp::MaskedFill_
            | TorchOp::WhereScalar
            | TorchOp::GeluBackward
            | TorchOp::SiluBackward
            | TorchOp::CrossEntropyLoss => seq![ArgKind::Tensor, ArgKind::Tensor],
            TorchOp::Linear => seq![ArgKind::Tensor, ArgKind::Tensor, ArgKind::Optional],
            TorchOp::AddMM
            | TorchOp::BAddBMM
            | TorchOp::AddCMul_
            | TorchOp::AddCDiv_
            | TorchOp::Where => seq![ArgKind::Tensor, ArgKind::Tensor, ArgKind::Tensor],
            TorchOp::MulScalar
            | TorchOp::MulScalar_
            | TorchOp::DivScalar
            | TorchOp::Pow
            | TorchOp::Gelu
            | TorchOp::Silu
            | TorchOp::ToCopyUpcast
            | TorchOp::NllLossBackward
            | TorchOp::Mean
            | TorchOp::Sum
            | TorchOp::Sqrt
            | TorchOp::Rsqrt
            | TorchOp::Neg
            | TorchOp::ZerosLike => seq![ArgKind::Tensor],
            TorchOp::ForeachMul_ => seq![ArgKind::List, ArgKind::List],
            TorchOp::ForeachMulScalar_ => seq![ArgKind::List],
            TorchOp::ForeachAddCMul_
            | TorchOp::ForeachAddCDiv_ => seq![ArgKind::List, ArgKind::List, ArgKind::List],
            TorchOp::Dropout
            | TorchOp::NativeDropout => seq![ArgKind::Tensor, ArgKind::Int, ArgKind::Flag],
            TorchOp::NativeDropoutBackward
            | TorchOp::LogSoftmaxBackward
            | TorchOp::SoftmaxBackward => seq![ArgKind::Tensor, ArgKind::Tensor, ArgKind::Int],
            TorchOp::FusedDropout
            | TorchOp::LogSoftmax
            | TorchOp::Softmax => seq![ArgKind::Tensor, ArgKind::Int],
            TorchOp::Cat => seq![ArgKind::List, ArgKind::Int],
            TorchOp::ConvDType => seq![ArgKind::Tensor, ArgKind::Dtype],
            TorchOp::SDPA => seq![ArgKind::Tensor, ArgKind::Tensor, ArgKind::Tensor, ArgKind::Optional, ArgKind::Flag, ArgKind::Flag],
            TorchOp::SDPAEfficientBackward => seq![ArgKind::Tensor, ArgKind::Tensor, ArgKind::Tensor, ArgKind::Optional, ArgKind::Flag],
            TorchOp::SDPABackward => seq![ArgKind::Tensor, ArgKind::Tensor, ArgKind::Tensor, ArgKind::Tensor, ArgKind::Tensor, ArgKind::Tensor, ArgKind::Int, ArgKind::Int, ArgKind::Flag],
            TorchOp::Conv2d => seq![ArgKind::Tensor, ArgKind::Tensor, ArgKind::Optional, ArgKind::Ints, ArgKind::Ints, ArgKind::Ints, ArgKind::Int],
            TorchOp::Conv2dBackward => seq![ArgKind::Tensor, ArgKind::Tensor, ArgKind::Tensor, ArgKind::Ints, ArgKind::Ints, ArgKind::Ints],
        }
    }

    /// What its arguments are.
    pub fn arg_kinds(self) -> (r: Vec<ArgKind>)
        ensures
            r@ == self.takes(),
    {
        let r: Vec<ArgKind> = match self {
            TorchOp::MM
            | TorchOp::MatMul
            | TorchOp::BMM
            | TorchOp::Mul
            | TorchOp::Mul_
            | TorchOp::Add
            | TorchOp::Add_
            | TorchOp::Div
            | TorchOp::MaskedFill
            | TorchOp::MaskedFill_
            | TorchOp::WhereScalar
            | TorchOp::GeluBackward
            | TorchOp::SiluBackward
            | TorchOp::CrossEntropyLoss => vec![ArgKind::Tensor, ArgKind::Tensor],
            TorchOp::Linear => vec![ArgKind::Tensor, ArgKind::Tensor, ArgKind::Optional],
            TorchOp::AddMM
            | TorchOp::BAddBMM
            | TorchOp::AddCMul_
            | TorchOp::AddCDiv_
            | TorchOp::Where => vec![ArgKind::Tensor, ArgKind::Tensor, ArgKind::Tensor],
            TorchOp::MulScalar
            | TorchOp::MulScalar_
            | TorchOp::DivScalar
            | TorchOp::Pow
            | TorchOp::Gelu
            | TorchOp::Silu
            | TorchOp::ToCopyUpcast
            | TorchOp::NllLossBackward
            | TorchOp::Mean
            | TorchOp::Sum
            | TorchOp::Sqrt
            | TorchOp::Rsqrt
            | TorchOp::Neg
            | TorchOp::ZerosLike => vec![ArgKind::Tensor],
            TorchOp::ForeachMul_ => vec![ArgKind::List, ArgKind::List],
            TorchOp::ForeachMulScalar_ => vec![ArgKind::List],
            TorchOp::ForeachAddCMul_
            | TorchOp::ForeachAddCDiv_ => vec![ArgKind::List, ArgKind::List, ArgKind::List],
            TorchOp::Dropout
            | TorchOp::NativeDropout => vec![ArgKind::Tensor, ArgKind::Int, ArgKind::Flag],
            TorchOp::NativeDropoutBackward
            | TorchOp::LogSoftmaxBackward
            | TorchOp::SoftmaxBackward => vec![ArgKind::Tensor, ArgKind::Tensor, ArgKind::Int],
            TorchOp::FusedDropout
            | TorchOp::LogSoftmax
            | TorchOp::Softmax => vec![ArgKind::Tensor, ArgKind::Int],
            TorchOp::Cat => vec![ArgKind::List, ArgKind::Int],
            TorchOp::ConvDType => vec![ArgKind::Tensor, ArgKind::Dtype],
            TorchOp::SDPA => vec![ArgKind::Tensor, ArgKind::Tensor, ArgKind::Tensor, ArgKind::Optional, ArgKind::Flag, ArgKind::Flag],
            TorchOp::SDPAEfficientBackward => vec![ArgKind::Tensor, ArgKind::Tensor, ArgKind::Tensor, ArgKind::Optional, ArgKind::Flag],
            TorchOp::SDPABackward => vec![ArgKind::Tensor, ArgKind::Tensor, ArgKind::Tensor, ArgKind::Tensor, ArgKind::Tensor, ArgKind::Tensor, ArgKind::Int, ArgKind::Int, ArgKind::Flag],
            TorchOp::Conv2d => vec![ArgKind::Tensor, ArgKind::Tensor, ArgKind::Optional, ArgKind::Ints, ArgKind::Ints, ArgKind::Ints, ArgKind::Int],
            TorchOp::Conv2dBackward => vec![ArgKind::Tensor, ArgKind::Tensor, ArgKind::Tensor, ArgKind::Ints, ArgKind::Ints, ArgKind::Ints],
        };
        assert(r@ =~= self.takes());
        r
    }

    /// The names of its arguments, where they have names.
    pub open spec fn fields(self) -> Option<Seq<Seq<char>>> {
        match self {
            TorchOp::SDPA => Some(seq!["q"@, "k"@, "v"@, "mask"@, "causal"@, "gqa"@]),
            TorchOp::SDPAEfficientBackward => Some(seq!["q"@, "k"@, "v"@, "bias"@, "causal"@]),
            TorchOp::SDPABackward => Some(seq!["grad"@, "q"@, "k"@, "v"@, "out"@, "logsumexp"@, "max_q"@, "max_k"@, "causal"@]),
            TorchOp::Conv2d => Some(seq!["input"@, "weight"@, "bias"@, "stride"@, "padding"@, "dilation"@, "groups"@]),
            TorchOp::Conv2dBackward => Some(seq!["grad_output"@, "input"@, "weight"@, "kernel"@, "stride"@, "padding"@]),
            _ => None,
        }
    }

    /// The names of its arguments, where they have names.
    pub fn field_names(self) -> (r: Option<Vec<&'static str>>)
        ensures
            match r {
                Some(v) => self.fields() == Some(v@.map_values(|s: &'static str| s@)),
                None => self.fields() is None,
            },
    {
        let r: Vec<&'static str> = match self {
            TorchOp::SDPA => vec!["q", "k", "v", "mask", "causal", "gqa"],
            TorchOp::SDPAEfficientBackward => vec!["q", "k", "v", "bias", "causal"],
            TorchOp::SDPABackward => vec!["grad", "q", "k", "v", "out", "logsumexp", "max_q", "max_k", "causal"],
            TorchOp::Conv2d => vec!["input", "weight", "bias", "stride", "padding", "dilation", "groups"],
            TorchOp::Conv2dBackward => vec!["grad_output", "input", "weight", "kernel", "stride", "padding"],
            _ => {
                return None;
            },
        };
        assert(r@.map_values(|s: &'static str| s@) =~= self.fields()->0);
        Some(r)
    }
}

/// The operator that has a name.
pub open spec fn op_of(name: Seq<char>) -> Option<TorchOp> {
    if name == "MM"@ {
        Some(TorchOp::MM)
    } else if name == "MatMul"@ {
        Some(TorchOp::MatMul)
    } else if name == "Linear"@ {
        Some(TorchOp::Linear)
    } else if name == "BMM"@ {
        Some(TorchOp::BMM)
    } else if name == "AddMM"@ {
        Some(TorchOp::AddMM)
    } else if name == "BAddBMM"@ {
        Some(TorchOp::BAddBMM)
    } else if name == "Mul"@ {
        Some(TorchOp::Mul)
    } else if name == "MulScalar"@ {
        Some(TorchOp::MulScalar)
    } else if name == "Mul_"@ {
        Some(TorchOp::Mul_)
    } else if name == "MulScalar_"@ {
        Some(TorchOp::MulScalar_)
    } else if name == "ForeachMul_"@ {
        Some(TorchOp::ForeachMul_)
    } else if name == "ForeachMulScalar_"@ {
        Some(TorchOp::ForeachMulScalar_)
    } else if name == "Add"@ {
        Some(TorchOp::Add)
    } else if name == "Add_"@ {
        Some(TorchOp::Add_)
    } else if name == "Div"@ {
        Some(TorchOp::Div)
    } else if name == "DivScalar"@ {
        Some(TorchOp::DivScalar)
    } else if name == "Pow"@ {
        Some(TorchOp::Pow)
    } else if name == "AddCMul_"@ {
        Some(TorchOp::AddCMul_)
    } else if name == "AddCDiv_"@ {
        Some(TorchOp::AddCDiv_)
    } else if name == "ForeachAddCMul_"@ {
        Some(TorchOp::ForeachAddCMul_)
    } else if name == "ForeachAddCDiv_"@ {
        Some(TorchOp::ForeachAddCDiv_)
    } else if name == "MaskedFill"@ {
        Some(TorchOp::MaskedFill)
    } else if name == "MaskedFill_"@ {
        Some(TorchOp::MaskedFill_)
    } else if name == "Dropout"@ {
        Some(TorchOp::Dropout)
    } else if name == "NativeDropout"@ {
        Some(TorchOp::NativeDropout)
    } else if name == "NativeDropoutBackward"@ {
        Some(TorchOp::NativeDropoutBackward)
    } else if name == "FusedDropout"@ {
        Some(TorchOp::FusedDropout)
    } else if name == "Where"@ {
        Some(TorchOp::Where)
    } else if name == "WhereScalar"@ {
        Some(TorchOp::WhereScalar)
    } else if name == "Gelu"@ {
        Some(TorchOp::Gelu)
    } else if name == "GeluBackward"@ {
        Some(TorchOp::GeluBackward)
    } else if name == "Silu"@ {
        Some(TorchOp::Silu)
    } else if name == "SiluBackward"@ {
        Some(TorchOp::SiluBackward)
    } else if name == "ToCopyUpcast"@ {
        Some(TorchOp::ToCopyUpcast)
    } else if name == "LogSoftmax"@ {
        Some(TorchOp::LogSoftmax)
    } else if name == "LogSoftmaxBackward"@ {
        Some(TorchOp::LogSoftmaxBackward)
    } else if name == "CrossEntropyLoss"@ {
        Some(TorchOp::CrossEntropyLoss)
    } else if name == "NllLossBackward"@ {
        Some(TorchOp::NllLossBackward)
    } else if name == "Mean"@ {
        Some(TorchOp::Mean)
    } else if name == "Sum"@ {
        Some(TorchOp::Sum)
    } else if name == "Sqrt"@ {
        Some(TorchOp::Sqrt)
    } else if name == "Rsqrt"@ {
        Some(TorchOp::Rsqrt)
    } else if name == "Neg"@ {
        Some(TorchOp::Neg)
    } else if name == "Cat"@ {
        Some(TorchOp::Cat)
    } else if name == "Softmax"@ {
        Some(TorchOp::Softmax)
    } else if name == "SoftmaxBackward"@ {
        Some(TorchOp::SoftmaxBackward)
    } else if name == "ZerosLike"@ {
        Some(TorchOp::ZerosLike)
    } else if name == "ConvDType"@ {
        Some(TorchOp::ConvDType)
    } else if name == "SDPA"@ {
        Some(TorchOp::SDPA)
    } else if name == "SDPAEfficientBackward"@ {
        Some(TorchOp::SDPAEfficientBackward)
    } else if name == "SDPABackward"@ {
        Some(TorchOp::SDPABackward)
    } else if name == "Conv2d"@ {
        Some(TorchOp::Conv2d)
    } else if name == "Conv2dBackward"@ {
        Some(TorchOp::Conv2dBackward)
    } else {
        None
    }
}

/// The operator that has a name.
pub fn op_from_name(name: &str) -> (r: Option<TorchOp>)
    ensures
        r == op_of(name@),
{
    if same_text(name, "MM") {
        Some(TorchOp::MM)
    } else if same_text(name, "MatMul") {
        Some(TorchOp::MatMul)
    } else if same_text(name, "Linear") {
        Some(TorchOp::Linear)
    } else if same_text(name, "BMM") {
        Some(TorchOp::BMM)
    } else if same_text(name, "AddMM") {
        Some(TorchOp::AddMM)
    } else if same_text(name, "BAddBMM") {
        Some(TorchOp::BAddBMM)
    } else if same_text(name, "Mul") {
        Some(TorchOp::Mul)
    } else if same_text(name, "MulScalar") {
        Some(TorchOp::MulScalar)
    } else if same_text(name, "Mul_") {
        Some(TorchOp::Mul_)
    } else if same_text(name, "MulScalar_") {
        Some(TorchOp::MulScalar_)
    } else if same_text(name, "ForeachMul_") {
        Some(TorchOp::ForeachMul_)
    } else if same_text(name, "ForeachMulScalar_") {
        Some(TorchOp::ForeachMulScalar_)
    } else if same_text(name, "Add") {
        Some(TorchOp::Add)
    } else if same_text(name, "Add_") {
        Some(TorchOp::Add_)
    } else if same_text(name, "Div") {
        Some(TorchOp::Div)
    } else if same_text(name, "DivScalar") {
        Some(TorchOp::DivScalar)
    } else if same_text(name, "Pow") {
        Some(TorchOp::Pow)
    } else if same_text(name, "AddCMul_") {
        Some(TorchOp::AddCMul_)
    } else if same_text(name, "AddCDiv_") {
        Some(TorchOp::AddCDiv_)
    } else if same_text(name, "ForeachAddCMul_") {
        Some(TorchOp::ForeachAddCMul_)
    } else if same_text(name, "ForeachAddCDiv_") {
        Some(TorchOp::ForeachAddCDiv_)
    } else if same_text(name, "MaskedFill") {
        Some(TorchOp::MaskedFill)
    } else if same_text(name, "MaskedFill_") {
        Some(TorchOp::MaskedFill_)
    } else if same_text(name, "Dropout") {
        Some(TorchOp::Dropout)
    } else if same_text(name, "NativeDropout") {
        Some(TorchOp::NativeDropout)
    } else if same_text(name, "NativeDropoutBackward") {
        Some(TorchOp::NativeDropoutBackward)
    } else if same_text(name, "FusedDropout") {
        Some(TorchOp::FusedDropout)
    } else if same_text(name, "Where") {
        Some(TorchOp::Where)
    } else if same_text(name, "WhereScalar") {
        Some(TorchOp::WhereScalar)
    } else if same_text(name, "Gelu") {
        Some(TorchOp::Gelu)
    } else if same_text(name, "GeluBackward") {
        Some(TorchOp::GeluBackward)
    } else if same_text(name, "Silu") {
        Some(TorchOp::Silu)
    } else if same_text(name, "SiluBackward") {
        Some(TorchOp::SiluBackward)
    } else if same_text(name, "ToCopyUpcast") {
        Some(TorchOp::ToCopyUpcast)
    } else if same_text(name, "LogSoftmax") {
        Some(TorchOp::LogSoftmax)
    } else if same_text(name, "LogSoftmaxBackward") {
        Some(TorchOp::LogSoftmaxBackward)
    } else if same_text(name, "CrossEntropyLoss") {
        Some(TorchOp::CrossEntropyLoss)
    } else if same_text(name, "NllLossBackward") {
        Some(TorchOp::NllLossBackward)
    } else if same_text(name, "Mean") {
        Some(TorchOp::Mean)
    } else if same_text(name, "Sum") {
        Some(TorchOp::Sum)
    } else if same_text(name, "Sqrt") {
        Some(TorchOp::Sqrt)
    } else if same_text(name, "Rsqrt") {
        Some(TorchOp::Rsqrt)
    } else if same_text(name, "Neg") {
        Some(TorchOp::Neg)
    } else if same_text(name, "Cat") {
        Some(TorchOp::Cat)
    } else if same_text(name, "Softmax") {
        Some(TorchOp::Softmax)
    } else if same_text(name, "SoftmaxBackward") {
        Some(TorchOp::SoftmaxBackward)
    } else if same_text(name, "ZerosLike") {
        Some(TorchOp::ZerosLike)
    } else if same_text(name, "ConvDType") {
        Some(TorchOp::ConvDType)
    } else if same_text(name, "SDPA") {
        Some(TorchOp::SDPA)
    } else if same_text(name, "SDPAEfficientBackward") {
        Some(TorchOp::SDPAEfficientBackward)
    } else if same_text(name, "SDPABackward") {
        Some(TorchOp::SDPABackward)
    } else if same_text(name, "Conv2d") {
        Some(TorchOp::Conv2d)
    } else if same_text(name, "Conv2dBackward") {
        Some(TorchOp::Conv2dBackward)
    } else {
        None
    }
}

/// Each operator is found by its name.
#[verifier::spinoff_prover]
#[verifier::rlimit(60)]
pub proof fn law_op_names(x: TorchOp)
    ensures
        op_of(x.text()) == Some(x),
        x.text().len() > 1,
{
    reveal_strlit("MM");
    reveal_strlit("MatMul");
    reveal_strlit("Linear");
    reveal_strlit("BMM");
    reveal_strlit("AddMM");
    reveal_strlit("BAddBMM");
    reveal_strlit("Mul");
    reveal_strlit("MulScalar");
    reveal_strlit("Mul_");
    reveal_strlit("MulScalar_");
    reveal_strlit("ForeachMul_");
    reveal_strlit("ForeachMulScalar_");
    reveal_strlit("Add");
    reveal_strlit("Add_");
    reveal_strlit("Div");
    reveal_strlit("DivScalar");
    reveal_strlit("Pow");
    reveal_strlit("AddCMul_");
    reveal_strlit("AddCDiv_");
    reveal_strlit("ForeachAddCMul_");
    reveal_strlit("ForeachAddCDiv_");
    reveal_strlit("MaskedFill");
    reveal_strlit("MaskedFill_");
    reveal_strlit("Dropout");
    reveal_strlit("NativeDropout");
    reveal_strlit("NativeDropoutBackward");
    reveal_strlit("FusedDropout");
    reveal_strlit("Where");
    reveal_strlit("WhereScalar");
    reveal_strlit("Gelu");
    reveal_strlit("GeluBackward");
    reveal_strlit("Silu");
    reveal_strlit("SiluBackward");
    reveal_strlit("ToCopyUpcast");
    reveal_strlit("LogSoftmax");
    reveal_strlit("LogSoftmaxBackward");
    reveal_strlit("CrossEntropyLoss");
    reveal_strlit("NllLossBackward");
    reveal_strlit("Mean");
    reveal_strlit("Sum");
    reveal_strlit("Sqrt");
    reveal_strlit("Rsqrt");
    reveal_strlit("Neg");
    reveal_strlit("Cat");
    reveal_strlit("Softmax");
    reveal_strlit("SoftmaxBackward");
    reveal_strlit("ZerosLike");
    reveal_strlit("ConvDType");
    reveal_strlit("SDPA");
    reveal_strlit("SDPAEfficientBackward");
    reveal_strlit("SDPABackward");
    reveal_strlit("Conv2d");
    reveal_strlit("Conv2dBackward");
    assert("MM"@.len() == 2);
    assert("BMM"@.len() == 3 && "BMM"@[0] == 'B');
    assert("Mul"@.len() == 3 && "Mul"@[0] == 'M');
    assert("Add"@.len() == 3 && "Add"@[0] == 'A');
    assert("Div"@.len() == 3 && "Div"@[0] == 'D');
    assert("Pow"@.len() == 3 && "Pow"@[0] == 'P');
    assert("Sum"@.len() == 3 && "Sum"@[0] == 'S');
    assert("Neg"@.len() == 3 && "Neg"@[0] == 'N');
    assert("Cat"@.len() == 3 && "Cat"@[0] == 'C');
    assert("Mul_"@.len() == 4 && "Mul_"@[0] == 'M' && "Mul_"@[1] == 'u');
    assert("Add_"@.len() == 4 && "Add_"@[0] == 'A' && "Add_"@[1] == 'd');
    assert("Gelu"@.len() == 4 && "Gelu"@[0] == 'G' && "Gelu"@[1] == 'e');
    assert("Silu"@.len() == 4 && "Silu"@[0] == 'S' && "Silu"@[1] == 'i');
    assert("Mean"@.len() == 4 && "Mean"@[0] == 'M' && "Mean"@[1] == 'e');
    assert("Sqrt"@.len() == 4 && "Sqrt"@[0] == 'S' && "Sqrt"@[1] == 'q');
    assert("SDPA"@.len() == 4 && "SDPA"@[0] == 'S' && "SDPA"@[1] == 'D');
    assert("AddMM"@.len() == 5 && "AddMM"@[0] == 'A');
    assert("Where"@.len() == 5 && "Where"@[0] == 'W');
    assert("Rsqrt"@.len() == 5 && "Rsqrt"@[0] == 'R');
    assert("MatMul"@.len() == 6 && "MatMul"@[0] == 'M');
    assert("Linear"@.len() == 6 && "Linear"@[0] == 'L');
    assert("Conv2d"@.len() == 6 && "Conv2d"@[0] == 'C');
    assert("BAddBMM"@.len() == 7 && "BAddBMM"@[0] == 'B');
    assert("Dropout"@.len() == 7 && "Dropout"@[0] == 'D');
    assert("Softmax"@.len() == 7 && "Softmax"@[0] == 'S');
    assert("AddCMul_"@.len() == 8 && "AddCMul_"@[4] == 'M');
    assert("AddCDiv_"@.len() == 8 && "AddCDiv_"@[4] == 'D');
    assert("MulScalar"@.len() == 9 && "MulScalar"@[0] == 'M');
    assert("DivScalar"@.len() == 9 && "DivScalar"@[0] == 'D');
    assert("ZerosLike"@.len() == 9 && "ZerosLike"@[0] == 'Z');
    assert("ConvDType"@.len() == 9 && "ConvDType"@[0] == 'C');
    assert("MulScalar_"@.len() == 10 && "MulScalar_"@[1] == 'u');
    assert("MaskedFill"@.len() == 10 && "MaskedFill"@[1] == 'a');
    assert("LogSoftmax"@.len() == 10 && "LogSoftmax"@[1] == 'o');
    assert("ForeachMul_"@.len() == 11 && "ForeachMul_"@[0] == 'F');
    assert("MaskedFill_"@.len() == 11 && "MaskedFill_"@[0] == 'M');
    assert("WhereScalar"@.len() == 11 && "WhereScalar"@[0] == 'W');
    assert("FusedDropout"@.len() == 12 && "FusedDropout"@[1] == 'u');
    assert("GeluBackward"@.len() == 12 && "GeluBackward"@[1] == 'e');
    assert("SiluBackward"@.len() == 12 && "SiluBackward"@[1] == 'i');
    assert("ToCopyUpcast"@.len() == 12 && "ToCopyUpcast"@[1] == 'o');
    assert("SDPABackward"@.len() == 12 && "SDPABackward"@[1] == 'D');
    assert("NativeDropout"@.len() == 13);
    assert("Conv2dBackward"@.len() == 14);
    assert("ForeachAddCMul_"@.len() == 15 && "ForeachAddCMul_"@[0] == 'F' && "ForeachAddCMul_"@[11] == 'M');
    assert("ForeachAddCDiv_"@.len() == 15 && "ForeachAddCDiv_"@[0] == 'F' && "ForeachAddCDiv_"@[11] == 'D');
    assert("NllLossBackward"@.len() == 15 && "NllLossBackward"@[0] == 'N' && "NllLossBackward"@[11] == 'w');
    assert("SoftmaxBackward"@.len() == 15 && "SoftmaxBackward"@[0] == 'S' && "SoftmaxBackward"@[11] == 'w');
    assert("CrossEntropyLoss"@.len() == 16);
    assert("ForeachMulScalar_"@.len() == 17);
    assert("LogSoftmaxBackward"@.len() == 18);
    assert("NativeDropoutBackward"@.len() == 21 && "NativeDropoutBackward"@[0] == 'N');
    assert("SDPAEfficientBackward"@.len() == 21 && "SDPAEfficientBackward"@[0] == 'S');
}

/// What an argument is.
pub open spec fn kind_of_arg(a: ArgView) -> ArgKind {
    match a {
        ArgView::Tensor(_) => ArgKind::Tensor,
        ArgView::Optional(_) => ArgKind::Optional,
        ArgView::List(_) => ArgKind::List,
        ArgView::Int(_) => ArgKind::Int,
        ArgView::Ints(_) => ArgKind::Ints,
        ArgView::Flag(_) => ArgKind::Flag,
        ArgView::Dtype(_) => ArgKind::Dtype,
    }
}

/// Whether the arguments of a call are what the operator takes.
pub open spec fn well_typed(c: CallView) -> bool {
    &&& c.args.len() == c.op.takes().len()
    &&& forall|i: int|
        0 <= i < c.args.len() ==> kind_of_arg(#[trigger] c.args[i]) == c.op.takes()[i]
}

/// What an argument is.
fn arg_kind(a: &TorchArg) -> (k: ArgKind)
    ensures
        k == kind_of_arg(a@),
{
    match a {
        TorchArg::Tensor(_) => ArgKind::Tensor,
        TorchArg::Optional(_) => ArgKind::Optional,
        TorchArg::List(_) => ArgKind::List,
        TorchArg::Int(_) => ArgKind::Int,
        TorchArg::Ints(_) => ArgKind::Ints,
        TorchArg::Flag(_) => ArgKind::Flag,
        TorchArg::Dtype(_) => ArgKind::Dtype,
    }
}

/// Whether the arguments of a call are what the operator takes.
pub fn is_well_typed(c: &TorchCallInfo) -> (b: bool)
    ensures
        b == well_typed(c@),
{
    let kinds = c.op.arg_kinds();
    if c.args.len() != kinds.len() {
        return false;
    }
    let mut i: usize = 0;
    while i < kinds.len()
        invariant
            i <= kinds@.len(),
            kinds@ == c.op.takes(),
            c.args@.len() == kinds@.len(),
            forall|j: int| 0 <= j < i ==> kind_of_arg(#[trigger] c@.args[j]) == kinds@[j],
        decreases kinds@.len() - i,
    {
        assert(c@.args[i as int] == c.args@[i as int]@);
        if arg_kind(&c.args[i]) != kinds[i] {
            return false;
        }
        i += 1;
    }
    true
}

} // verus!
