//! Traced PyTorch operator calls.

use crate::cuda_call::{CudaStream, ResponseId};
use crate::table::MapKey;
use std::collections::hash_map::DefaultHasher;
use std::hash::Hasher;
use vstd::bytes::u64_to_le_bytes;
use vstd::prelude::*;
use vstd::std_specs::hash::DefaultHasherAdditionalSpecFns;

verus! {

/// The element type of a tensor.
#[derive(Clone, Copy, Debug, PartialEq, Eq, Hash, Structural)]
pub enum Kind {
    Uint8,
    Int8,
    Int16,
    Int,
    Int64,
    Half,
    Float,
    Double,
    ComplexHalf,
    ComplexFloat,
    ComplexDouble,
    Bool,
    QInt8,
    QUInt8,
    QInt32,
    BFloat16,
    Float8e5m2,
    Float8e4m3fn,
    Float8e5m2fnuz,
    Float8e4m3fnuz,
    UInt16,
    UInt32,
    UInt64,
}

impl Kind {
    /// A number for each element type.
    pub open spec fn code(self) -> u8 {
        match self {
            Kind::Uint8 => 0,
            Kind::Int8 => 1,
            Kind::Int16 => 2,
            Kind::Int => 3,
            Kind::Int64 => 4,
            Kind::Half => 5,
            Kind::Float => 6,
            Kind::Double => 7,
            Kind::ComplexHalf => 8,
            Kind::ComplexFloat => 9,
            Kind::ComplexDouble => 10,
            Kind::Bool => 11,
            Kind::QInt8 => 12,
            Kind::QUInt8 => 13,
            Kind::QInt32 => 14,
            Kind::BFloat16 => 15,
            Kind::Float8e5m2 => 16,
            Kind::Float8e4m3fn => 17,
            Kind::Float8e5m2fnuz => 18,
            Kind::Float8e4m3fnuz => 19,
            Kind::UInt16 => 20,
            Kind::UInt32 => 21,
            Kind::UInt64 => 22,
        }
    }

    /// A number for each element type.
    pub fn tag(self) -> (n: u8)
        ensures
            n == self.code(),
    {
        match self {
            Kind::Uint8 => 0,
            Kind::Int8 => 1,
            Kind::Int16 => 2,
            Kind::Int => 3,
            Kind::Int64 => 4,
            Kind::Half => 5,
            Kind::Float => 6,
            Kind::Double => 7,
            Kind::ComplexHalf => 8,
            Kind::ComplexFloat => 9,
            Kind::ComplexDouble => 10,
            Kind::Bool => 11,
            Kind::QInt8 => 12,
            Kind::QUInt8 => 13,
            Kind::QInt32 => 14,
            Kind::BFloat16 => 15,
            Kind::Float8e5m2 => 16,
            Kind::Float8e4m3fn => 17,
            Kind::Float8e5m2fnuz => 18,
            Kind::Float8e4m3fnuz => 19,
            Kind::UInt16 => 20,
            Kind::UInt32 => 21,
            Kind::UInt64 => 22,
        }
    }
}

/// The traced operators.
#[allow(non_camel_case_types)]
#[derive(Clone, Copy, Debug, PartialEq, Eq, Hash, Structural)]
pub enum TorchOp {
    MM,
    MatMul,
    Linear,
    BMM,
    AddMM,
    BAddBMM,
    Mul,
    MulScalar,
    Mul_,
    MulScalar_,
    ForeachMul_,
    ForeachMulScalar_,
    Add,
    Add_,
    Div,
    DivScalar,
    Pow,
    AddCMul_,
    AddCDiv_,
    ForeachAddCMul_,
    ForeachAddCDiv_,
    MaskedFill,
    MaskedFill_,
    Dropout,
    NativeDropout,
    NativeDropoutBackward,
    FusedDropout,
    Where,
    WhereScalar,
    Gelu,
    GeluBackward,
    Silu,
    SiluBackward,
    ToCopyUpcast,
    LogSoftmax,
    LogSoftmaxBackward,
    CrossEntropyLoss,
    NllLossBackward,
    Mean,
    Sum,
    Sqrt,
    Rsqrt,
    Neg,
    Cat,
    Softmax,
    SoftmaxBackward,
    ZerosLike,
    ConvDType,
    SDPA,
    SDPAEfficientBackward,
    SDPABackward,
    Conv2d,
    Conv2dBackward,
}

impl TorchOp {
    /// A number for each operator.
    pub open spec fn code(self) -> u8 {
        match self {
            TorchOp::MM => 0,
            TorchOp::MatMul => 1,
            TorchOp::Linear => 2,
            TorchOp::BMM => 3,
            TorchOp::AddMM => 4,
            TorchOp::BAddBMM => 5,
            TorchOp::Mul => 6,
            TorchOp::MulScalar => 7,
            TorchOp::Mul_ => 8,
            TorchOp::MulScalar_ => 9,
            TorchOp::ForeachMul_ => 10,
            TorchOp::ForeachMulScalar_ => 11,
            TorchOp::Add => 12,
            TorchOp::Add_ => 13,
            TorchOp::Div => 14,
            TorchOp::DivScalar => 15,
            TorchOp::Pow => 16,
            TorchOp::AddCMul_ => 17,
            TorchOp::AddCDiv_ => 18,
            TorchOp::ForeachAddCMul_ => 19,
            TorchOp::ForeachAddCDiv_ => 20,
            TorchOp::MaskedFill => 21,
            TorchOp::MaskedFill_ => 22,
            TorchOp::Dropout => 23,
            TorchOp::NativeDropout => 24,
            TorchOp::NativeDropoutBackward => 25,
            TorchOp::FusedDropout => 26,
            TorchOp::Where => 27,
            TorchOp::WhereScalar => 28,
            TorchOp::Gelu => 29,
            TorchOp::GeluBackward => 30,
            TorchOp::Silu => 31,
            TorchOp::SiluBackward => 32,
            TorchOp::ToCopyUpcast => 33,
            TorchOp::LogSoftmax => 34,
            TorchOp::LogSoftmaxBackward => 35,
            TorchOp::CrossEntropyLoss => 36,
            TorchOp::NllLossBackward => 37,
            TorchOp::Mean => 38,
            TorchOp::Sum => 39,
            TorchOp::Sqrt => 40,
            TorchOp::Rsqrt => 41,
            TorchOp::Neg => 42,
            TorchOp::Cat => 43,
            TorchOp::Softmax => 44,
            TorchOp::SoftmaxBackward => 45,
            TorchOp::ZerosLike => 46,
            TorchOp::ConvDType => 47,
            TorchOp::SDPA => 48,
            TorchOp::SDPAEfficientBackward => 49,
            TorchOp::SDPABackward => 50,
            TorchOp::Conv2d => 51,
            TorchOp::Conv2dBackward => 52,
        }
    }

    /// A number for each operator.
    pub fn tag(self) -> (n: u8)
        ensures
            n == self.code(),
    {
        match self {
            TorchOp::MM => 0,
            TorchOp::MatMul => 1,
            TorchOp::Linear => 2,
            TorchOp::BMM => 3,
            TorchOp::AddMM => 4,
            TorchOp::BAddBMM => 5,
            TorchOp::Mul => 6,
            TorchOp::MulScalar => 7,
            TorchOp::Mul_ => 8,
            TorchOp::MulScalar_ => 9,
            TorchOp::ForeachMul_ => 10,
            TorchOp::ForeachMulScalar_ => 11,
            TorchOp::Add => 12,
            TorchOp::Add_ => 13,
            TorchOp::Div => 14,
            TorchOp::DivScalar => 15,
            TorchOp::Pow => 16,
            TorchOp::AddCMul_ => 17,
            TorchOp::AddCDiv_ => 18,
            TorchOp::ForeachAddCMul_ => 19,
            TorchOp::ForeachAddCDiv_ => 20,
            TorchOp::MaskedFill => 21,
            TorchOp::MaskedFill_ => 22,
            TorchOp::Dropout => 23,
            TorchOp::NativeDropout => 24,
            TorchOp::NativeDropoutBackward => 25,
            TorchOp::FusedDropout => 26,
            TorchOp::Where => 27,
            TorchOp::WhereScalar => 28,
            TorchOp::Gelu => 29,
            TorchOp::GeluBackward => 30,
            TorchOp::Silu => 31,
            TorchOp::SiluBackward => 32,
            TorchOp::ToCopyUpcast => 33,
            TorchOp::LogSoftmax => 34,
            TorchOp::LogSoftmaxBackward => 35,
            TorchOp::CrossEntropyLoss => 36,
            TorchOp::NllLossBackward => 37,
            TorchOp::Mean => 38,
            TorchOp::Sum => 39,
            TorchOp::Sqrt => 40,
            TorchOp::Rsqrt => 41,
            TorchOp::Neg => 42,
            TorchOp::Cat => 43,
            TorchOp::Softmax => 44,
            TorchOp::SoftmaxBackward => 45,
            TorchOp::ZerosLike => 46,
            TorchOp::ConvDType => 47,
            TorchOp::SDPA => 48,
            TorchOp::SDPAEfficientBackward => 49,
            TorchOp::SDPABackward => 50,
            TorchOp::Conv2d => 51,
            TorchOp::Conv2dBackward => 52,
        }
    }
}

/// The shape and element type of a tensor.
#[derive(Debug, PartialEq, Eq, Hash)]
pub struct TensorInfo {
    pub shape: Vec<i64>,
    pub dtype: Kind,
}

/// What a [`TensorInfo`] stands for.
#[verifier::ext_equal]
pub struct TensorView {
    pub shape: Seq<i64>,
    pub dtype: Kind,
}

impl View for TensorInfo {
    type V = TensorView;

    open spec fn view(&self) -> TensorView {
        TensorView { shape: self.shape@, dtype: self.dtype }
    }
}

/// What each of some tensors stands for.
pub open spec fn tensor_views(list: Seq<TensorInfo>) -> Seq<TensorView> {
    list.map_values(|t: TensorInfo| t@)
}

/// One argument of a traced operator.
#[derive(Debug, PartialEq, Eq, Hash)]
pub enum TorchArg {
    /// A tensor.
    Tensor(TensorInfo),
    /// A tensor that may be left out.
    Optional(Option<TensorInfo>),
    /// A list of tensors.
    List(Vec<TensorInfo>),
    /// A number.
    Int(i64),
    /// A list of numbers.
    Ints(Vec<i64>),
    /// A flag.
    Flag(bool),
    /// An element type.
    Dtype(Kind),
}

/// What a [`TorchArg`] stands for.
#[verifier::ext_equal]
pub enum ArgView {
    Tensor(TensorView),
    Optional(Option<TensorView>),
    List(Seq<TensorView>),
    Int(i64),
    Ints(Seq<i64>),
    Flag(bool),
    Dtype(Kind),
}

impl View for TorchArg {
    type V = ArgView;

    open spec fn view(&self) -> ArgView {
        match *self {
            TorchArg::Tensor(t) => ArgView::Tensor(t@),
            TorchArg::Optional(t) => ArgView::Optional(
                match t {
                    Some(t) => Some(t@),
                    None => None,
                },
            ),
            TorchArg::List(l) => ArgView::List(tensor_views(l@)),
            TorchArg::Int(n) => ArgView::Int(n),
            TorchArg::Ints(l) => ArgView::Ints(l@),
            TorchArg::Flag(b) => ArgView::Flag(b),
            TorchArg::Dtype(k) => ArgView::Dtype(k),
        }
    }
}

/// An operator with its arguments, without the values of any tensor.
#[derive(Debug, PartialEq, Eq, Hash)]
pub struct TorchCallInfo {
    pub op: TorchOp,
    pub args: Vec<TorchArg>,
}

/// What a [`TorchCallInfo`] stands for.
#[verifier::ext_equal]
pub struct CallView {
    pub op: TorchOp,
    pub args: Seq<ArgView>,
}

/// What each of some arguments stands for.
pub open spec fn arg_views(args: Seq<TorchArg>) -> Seq<ArgView> {
    args.map_values(|a: TorchArg| a@)
}

impl View for TorchCallInfo {
    type V = CallView;

    open spec fn view(&self) -> CallView {
        CallView { op: self.op, args: arg_views(self.args@) }
    }
}

/// A traced operator call: what was called, by whom, on which stream and when.
#[derive(Debug, PartialEq, Eq, Hash)]
pub struct TorchCall {
    pub id: ResponseId,
    pub stream: CudaStream,
    pub time: i64,
    pub info: TorchCallInfo,
}

fn same_ints(a: &Vec<i64>, b: &Vec<i64>) -> (same: bool)
    ensures
        same == (a@ == b@),
{
    if a.len() != b.len() {
        return false;
    }
    let mut i: usize = 0;
    while i < a.len()
        invariant
            a@.len() == b@.len(),
            i <= a@.len(),
            forall|j: int| 0 <= j < i ==> a@[j] == b@[j],
        decreases a@.len() - i,
    {
        if a[i] != b[i] {
            return false;
        }
        i += 1;
    }
    assert(a@ =~= b@);
    true
}

impl TensorInfo {
    fn same(&self, other: &TensorInfo) -> (same: bool)
        ensures
            same == (self@ == other@),
    {
        self.dtype == other.dtype && same_ints(&self.shape, &other.shape)
    }
}

impl Clone for TensorInfo {
    fn clone(&self) -> (r: Self)
        ensures
            r@ == self@,
    {
        let shape = self.shape.clone();
        assert(shape@ =~= self.shape@);
        TensorInfo { shape, dtype: self.dtype }
    }
}

fn same_tensors(a: &Vec<TensorInfo>, b: &Vec<TensorInfo>) -> (same: bool)
    ensures
        same == (tensor_views(a@) == tensor_views(b@)),
{
    if a.len() != b.len() {
        assert(tensor_views(a@).len() != tensor_views(b@).len());
        return false;
    }
    let mut i: usize = 0;
    while i < a.len()
        invariant
            a@.len() == b@.len(),
            i <= a@.len(),
            forall|j: int| 0 <= j < i ==> (#[trigger] a@[j])@ == b@[j]@,
        decreases a@.len() - i,
    {
        if !a[i].same(&b[i]) {
            assert(tensor_views(a@)[i as int] != tensor_views(b@)[i as int]);
            return false;
        }
        i += 1;
    }
    assert(tensor_views(a@) =~= tensor_views(b@));
    true
}

fn clone_tensors(list: &Vec<TensorInfo>) -> (r: Vec<TensorInfo>)
    ensures
        tensor_views(r@) == tensor_views(list@),
{
    let mut r: Vec<TensorInfo> = Vec::new();
    let mut i: usize = 0;
    while i < list.len()
        invariant
            i <= list@.len(),
            r@.len() == i,
            forall|j: int| 0 <= j < i ==> (#[trigger] r@[j])@ == list@[j]@,
        decreases list@.len() - i,
    {
        r.push(list[i].clone());
        i += 1;
    }
    assert(tensor_views(r@) =~= tensor_views(list@));
    r
}

impl TorchArg {
    fn same(&self, other: &TorchArg) -> (same: bool)
        ensures
            same == (self@ == other@),
    {
        match (self, other) {
            (TorchArg::Tensor(a), TorchArg::Tensor(b)) => a.same(b),
            (TorchArg::Optional(Some(a)), TorchArg::Optional(Some(b))) => a.same(b),
            (TorchArg::Optional(None), TorchArg::Optional(None)) => true,
            (TorchArg::List(a), TorchArg::List(b)) => same_tensors(a, b),
            (TorchArg::Int(a), TorchArg::Int(b)) => *a == *b,
            (TorchArg::Ints(a), TorchArg::Ints(b)) => same_ints(a, b),
            (TorchArg::Flag(a), TorchArg::Flag(b)) => *a == *b,
            (TorchArg::Dtype(a), TorchArg::Dtype(b)) => *a == *b,
            _ => false,
        }
    }
}

impl Clone for TorchArg {
    fn clone(&self) -> (r: Self)
        ensures
            r@ == self@,
    {
        match self {
            TorchArg::Tensor(t) => TorchArg::Tensor(t.clone()),
            TorchArg::Optional(Some(t)) => TorchArg::Optional(Some(t.clone())),
            TorchArg::Optional(None) => TorchArg::Optional(None),
            TorchArg::List(l) => TorchArg::List(clone_tensors(l)),
            TorchArg::Int(n) => TorchArg::Int(*n),
            TorchArg::Ints(l) => {
                let c = l.clone();
                assert(c@ =~= l@);
                TorchArg::Ints(c)
            },
            TorchArg::Flag(b) => TorchArg::Flag(*b),
            TorchArg::Dtype(k) => TorchArg::Dtype(*k),
        }
    }
}

impl MapKey for TorchCallInfo {
    fn same_key(&self, other: &Self) -> (b: bool) {
        if self.op != other.op || self.args.len() != other.args.len() {
            assert(self.args@.len() != other.args@.len() ==> arg_views(self.args@).len()
                != arg_views(other.args@).len());
            return false;
        }
        let mut i: usize = 0;
        while i < self.args.len()
            invariant
                self.args@.len() == other.args@.len(),
                i <= self.args@.len(),
                forall|j: int| 0 <= j < i ==> (#[trigger] self.args@[j])@ == other.args@[j]@,
            decreases self.args@.len() - i,
        {
            if !self.args[i].same(&other.args[i]) {
                assert(arg_views(self.args@)[i as int] != arg_views(other.args@)[i as int]);
                return false;
            }
            i += 1;
        }
        assert(arg_views(self.args@) =~= arg_views(other.args@));
        true
    }
}

impl Clone for TorchCallInfo {
    fn clone(&self) -> (r: Self)
        ensures
            r@ == self@,
    {
        let mut args: Vec<TorchArg> = Vec::new();
        let mut i: usize = 0;
        while i < self.args.len()
            invariant
                i <= self.args@.len(),
                args@.len() == i,
                forall|j: int| 0 <= j < i ==> (#[trigger] args@[j])@ == self.args@[j]@,
            decreases self.args@.len() - i,
        {
            args.push(self.args[i].clone());
            i += 1;
        }
        assert(arg_views(args@) =~= arg_views(self.args@));
        TorchCallInfo { op: self.op, args }
    }
}

/// The little-endian bytes of a number.
pub open spec fn int_bytes(n: i64) -> Seq<u8> {
    vstd::bytes::spec_u64_to_le_bytes(n as u64)
}

/// The bytes of some numbers, one after the other.
pub open spec fn ints_bytes(l: Seq<i64>) -> Seq<u8>
    decreases l.len(),
{
    if l.len() == 0 {
        seq![]
    } else {
        ints_bytes(l.drop_last()) + int_bytes(l.last())
    }
}

/// The bytes by which a tensor enters a hash.
pub open spec fn tensor_bytes(t: TensorView) -> Seq<u8> {
    seq![t.dtype.code()] + int_bytes(t.shape.len() as i64) + ints_bytes(t.shape)
}

/// The bytes of some tensors, one after the other.
pub open spec fn tensors_bytes(l: Seq<TensorView>) -> Seq<u8>
    decreases l.len(),
{
    if l.len() == 0 {
        seq![]
    } else {
        tensors_bytes(l.drop_last()) + tensor_bytes(l.last())
    }
}

/// The bytes by which an argument enters a hash.
pub open spec fn arg_bytes(a: ArgView) -> Seq<u8> {
    match a {
        ArgView::Tensor(t) => seq![0u8] + tensor_bytes(t),
        ArgView::Optional(Some(t)) => seq![1u8] + tensor_bytes(t),
        ArgView::Optional(None) => seq![2u8],
        ArgView::List(l) => seq![3u8] + int_bytes(l.len() as i64) + tensors_bytes(l),
        ArgView::Int(n) => seq![4u8] + int_bytes(n),
        ArgView::Ints(l) => seq![5u8] + int_bytes(l.len() as i64) + ints_bytes(l),
        ArgView::Flag(b) => seq![
            if b {
                7u8
            } else {
                6u8
            },
        ],
        ArgView::Dtype(k) => seq![8u8, k.code()],
    }
}

/// The bytes of some arguments, one after the other.
pub open spec fn args_bytes(l: Seq<ArgView>) -> Seq<u8>
    decreases l.len(),
{
    if l.len() == 0 {
        seq![]
    } else {
        args_bytes(l.drop_last()) + arg_bytes(l.last())
    }
}

/// The bytes by which a call enters a hash.
pub open spec fn call_bytes(c: CallView) -> Seq<u8> {
    seq![c.op.code()] + args_bytes(c.args)
}

fn push_int(out: &mut Vec<u8>, n: i64)
    ensures
        final(out)@ == old(out)@ + int_bytes(n),
{
    let mut bytes = u64_to_le_bytes(
        #[verifier::truncate]
        (n as u64),
    );
    out.append(&mut bytes);
}

fn push_ints(out: &mut Vec<u8>, l: &Vec<i64>)
    ensures
        final(out)@ == old(out)@ + ints_bytes(l@),
{
    let ghost before = out@;
    let mut i: usize = 0;
    assert(out@ =~= before + ints_bytes(l@.take(0)));
    while i < l.len()
        invariant
            i <= l@.len(),
            out@ == before + ints_bytes(l@.take(i as int)),
        decreases l@.len() - i,
    {
        push_int(out, l[i]);
        proof {
            assert(l@.take(i + 1).drop_last() =~= l@.take(i as int));
            assert(out@ =~= before + ints_bytes(l@.take(i + 1)));
        }
        i += 1;
    }
    assert(l@.take(l@.len() as int) =~= l@);
}

fn push_tensor(out: &mut Vec<u8>, t: &TensorInfo)
    ensures
        final(out)@ == old(out)@ + tensor_bytes(t@),
{
    let ghost before = out@;
    out.push(t.dtype.tag());
    push_int(
        out,
        #[verifier::truncate]
        (t.shape.len() as i64),
    );
    push_ints(out, &t.shape);
    assert(out@ =~= before + tensor_bytes(t@));
}

fn push_tensors(out: &mut Vec<u8>, l: &Vec<TensorInfo>)
    ensures
        final(out)@ == old(out)@ + tensors_bytes(tensor_views(l@)),
{
    let ghost before = out@;
    let ghost all = tensor_views(l@);
    let mut i: usize = 0;
    assert(out@ =~= before + tensors_bytes(all.take(0)));
    while i < l.len()
        invariant
            i <= l@.len(),
            all == tensor_views(l@),
            out@ == before + tensors_bytes(all.take(i as int)),
        decreases l@.len() - i,
    {
        push_tensor(out, &l[i]);
        proof {
            assert(all.take(i + 1).drop_last() =~= all.take(i as int));
            assert(out@ =~= before + tensors_bytes(all.take(i + 1)));
        }
        i += 1;
    }
    assert(all.take(all.len() as int) =~= all);
}

fn push_arg(out: &mut Vec<u8>, a: &TorchArg)
    ensures
        final(out)@ == old(out)@ + arg_bytes(a@),
{
    let ghost before = out@;
    match a {
        TorchArg::Tensor(t) => {
            out.push(0);
            push_tensor(out, t);
        },
        TorchArg::Optional(Some(t)) => {
            out.push(1);
            push_tensor(out, t);
        },
        TorchArg::Optional(None) => out.push(2),
        TorchArg::List(l) => {
            out.push(3);
            push_int(
                out,
                #[verifier::truncate]
                (l.len() as i64),
            );
            push_tensors(out, l);
        },
        TorchArg::Int(n) => {
            out.push(4);
            push_int(out, *n);
        },
        TorchArg::Ints(l) => {
            out.push(5);
            push_int(
                out,
                #[verifier::truncate]
                (l.len() as i64),
            );
            push_ints(out, l);
        },
        TorchArg::Flag(b) => out.push(
            if *b {
                7
            } else {
                6
            },
        ),
        TorchArg::Dtype(k) => {
            out.push(8);
            out.push(k.tag());
        },
    }
    assert(out@ =~= before + arg_bytes(a@));
}

impl TorchCallInfo {
    /// The bytes by which this call enters a hash.
    pub fn hash_bytes(&self) -> (out: Vec<u8>)
        ensures
            out@ == call_bytes(self@),
    {
        let mut out: Vec<u8> = Vec::new();
        out.push(self.op.tag());
        let ghost head = out@;
        let ghost all = arg_views(self.args@);
        let mut i: usize = 0;
        assert(out@ =~= head + args_bytes(all.take(0)));
        while i < self.args.len()
            invariant
                i <= self.args@.len(),
                all == arg_views(self.args@),
                out@ == head + args_bytes(all.take(i as int)),
            decreases self.args@.len() - i,
        {
            push_arg(&mut out, &self.args[i]);
            proof {
                assert(all.take(i + 1).drop_last() =~= all.take(i as int));
                assert(out@ =~= head + args_bytes(all.take(i + 1)));
            }
            i += 1;
        }
        assert(all.take(all.len() as int) =~= all);
        assert(head =~= seq![self.op.code()]);
        out
    }
}

/// What each of some calls asks for.
pub open spec fn call_infos(calls: Seq<TorchCall>) -> Seq<CallView> {
    calls.map_values(|c: TorchCall| c.info@)
}

/// The hash of a run of calls.
pub open spec fn sequence_hash(infos: Seq<CallView>) -> u64 {
    DefaultHasher::spec_finish(infos.map_values(|c: CallView| call_bytes(c)))
}

/// Hashes a run of calls, one call after the other.
pub struct RunHasher {
    hasher: DefaultHasher,
}

impl View for RunHasher {
    type V = Seq<Seq<u8>>;

    closed spec fn view(&self) -> Seq<Seq<u8>> {
        self.hasher@
    }
}

impl RunHasher {
    /// No call yet.
    pub fn new() -> (h: Self)
        ensures
            h@ == Seq::<Seq<u8>>::empty(),
    {
        RunHasher { hasher: DefaultHasher::new() }
    }

    /// Takes in the next call of the run.
    pub fn write(&mut self, call: &TorchCallInfo)
        ensures
            final(self)@ == old(self)@.push(call_bytes(call@)),
    {
        let bytes = call.hash_bytes();
        self.hasher.write(bytes.as_slice());
    }

    /// The hash of the run.
    pub fn finish(&self) -> (h: u64)
        ensures
            h == DefaultHasher::spec_finish(self@),
    {
        self.hasher.finish()
    }
}

/// The hash of a run of calls: every call is written to one hasher, in order.
pub fn hash_sequence(calls: &Vec<TorchCall>) -> (h: u64)
    ensures
        h == sequence_hash(call_infos(calls@)),
{
    let mut hasher = RunHasher::new();
    let ghost all = call_infos(calls@).map_values(|c: CallView| call_bytes(c));
    let mut i: usize = 0;
    assert(hasher@ =~= all.take(0));
    while i < calls.len()
        invariant
            i <= calls@.len(),
            all == call_infos(calls@).map_values(|c: CallView| call_bytes(c)),
            hasher@ == all.take(i as int),
        decreases calls@.len() - i,
    {
        hasher.write(&calls[i].info);
        assert(hasher@ =~= all.take(i + 1));
        i += 1;
    }
    assert(all.take(all.len() as int) =~= all);
    hasher.finish()
}

/// What each of some calls stands for.
pub open spec fn info_views(infos: Seq<TorchCallInfo>) -> Seq<CallView> {
    infos.map_values(|c: TorchCallInfo| c@)
}

/// The hash of a run of calls.
pub fn hash_infos(infos: &Vec<TorchCallInfo>) -> (h: u64)
    ensures
        h == sequence_hash(info_views(infos@)),
{
    let mut hasher = RunHasher::new();
    let ghost all = info_views(infos@).map_values(|c: CallView| call_bytes(c));
    let mut i: usize = 0;
    assert(hasher@ =~= all.take(0));
    while i < infos.len()
        invariant
            i <= infos@.len(),
            all == info_views(infos@).map_values(|c: CallView| call_bytes(c)),
            hasher@ == all.take(i as int),
        decreases infos@.len() - i,
    {
        hasher.write(&infos[i]);
        assert(hasher@ =~= all.take(i + 1));
        i += 1;
    }
    assert(all.take(all.len() as int) =~= all);
    hasher.finish()
}

} // verus!
