//! The CUDA and NCCL calls that a traced rank reports, as plain values.

use crate::table::MapKey;
use vstd::prelude::*;

verus! {

/// A traced process: the name of its machine and its process id.
#[derive(Debug, PartialEq, Eq, Hash)]
pub struct HostId {
    pub hostname: String,
    pub pid: u32,
}

impl View for HostId {
    type V = (Seq<char>, u32);

    open spec fn view(&self) -> (Seq<char>, u32) {
        (self.hostname@, self.pid)
    }
}

impl MapKey for HostId {
    fn same_key(&self, other: &Self) -> (b: bool) {
        self.pid == other.pid && self.hostname == other.hostname
    }
}

impl Clone for HostId {
    fn clone(&self) -> (r: Self)
        ensures
            r == *self,
    {
        HostId { hostname: self.hostname.clone(), pid: self.pid }
    }
}

/// A thread of a traced process that waits for an answer.
#[derive(Debug, PartialEq, Eq, Hash)]
pub struct ResponseId {
    pub host: HostId,
    pub tid: i32,
}

impl View for ResponseId {
    type V = ResponseId;

    open spec fn view(&self) -> ResponseId {
        *self
    }
}

impl Clone for ResponseId {
    fn clone(&self) -> (r: Self)
        ensures
            r == *self,
    {
        ResponseId { host: self.host.clone(), tid: self.tid }
    }
}

/// A CUDA stream of a device.
#[derive(Clone, Copy, Debug, PartialEq, Eq, Hash, Structural)]
pub struct CudaStream {
    pub device: i32,
    pub id: u64,
}

impl View for CudaStream {
    type V = CudaStream;

    open spec fn view(&self) -> CudaStream {
        *self
    }
}

impl MapKey for CudaStream {
    fn same_key(&self, other: &Self) -> (b: bool) {
        *self == *other
    }
}

/// A CUDA event, with the stream that records it.
#[derive(Clone, Copy, Debug, PartialEq, Eq, Hash, Structural)]
pub struct CudaEvent {
    pub device: i32,
    pub stream: u64,
    pub id: u64,
}

/// The two ends of a memory copy.
#[derive(Clone, Copy, Debug, PartialEq, Eq, PartialOrd, Ord, Hash, Structural)]
pub enum CudaMemcpyKind {
    HostToHost,
    HostToDevice,
    PinnedHostToDevice,
    DeviceToHost,
    DeviceToPinnedHost,
    DeviceToDevice,
}

impl View for CudaMemcpyKind {
    type V = CudaMemcpyKind;

    open spec fn view(&self) -> CudaMemcpyKind {
        *self
    }
}

impl MapKey for (CudaMemcpyKind, usize) {
    fn same_key(&self, other: &Self) -> (b: bool) {
        self.0 == other.0 && self.1 == other.1
    }
}

/// The element type of an NCCL buffer.
#[derive(Clone, Copy, Debug, PartialEq, Eq, Hash, Structural)]
pub enum NcclDatatype {
    I8,
    U8,
    I32,
    U32,
    I64,
    U64,
    F16,
    F32,
    F64,
    Bf16,
}

impl NcclDatatype {
    /// The size of one element in bytes.
    pub open spec fn bytes(self) -> int {
        match self {
            NcclDatatype::I8 | NcclDatatype::U8 => 1,
            NcclDatatype::F16 | NcclDatatype::Bf16 => 2,
            NcclDatatype::I32 | NcclDatatype::U32 | NcclDatatype::F32 => 4,
            NcclDatatype::I64 | NcclDatatype::U64 | NcclDatatype::F64 => 8,
        }
    }

    /// The size of one element in bytes.
    pub fn size(self) -> (n: usize)
        ensures
            n == self.bytes(),
    {
        match self {
            NcclDatatype::I8 | NcclDatatype::U8 => 1,
            NcclDatatype::F16 | NcclDatatype::Bf16 => 2,
            NcclDatatype::I32 | NcclDatatype::U32 | NcclDatatype::F32 => 4,
            NcclDatatype::I64 | NcclDatatype::U64 | NcclDatatype::F64 => 8,
        }
    }
}

/// How an NCCL reduction combines elements.
#[derive(Clone, Copy, Debug, PartialEq, Eq, Hash, Structural)]
pub enum NcclReduceOp {
    Sum,
    Prod,
    Max,
    Min,
    Avg,
}

/// A rank's handle on an NCCL communicator.
#[derive(Clone, Copy, Debug, PartialEq, Eq, Hash)]
pub struct NcclComm {
    pub rank: i32,
    pub id: [u8; 128],
}

/// One intercepted call.
#[derive(Debug, PartialEq, Eq, Hash)]
pub enum CudaCall {
    CudaMemcpyAsync { size: usize, kind: CudaMemcpyKind, stream: CudaStream },
    CudaDeviceSynchronize(i32),
    CudaStreamSynchronize(CudaStream),
    CudaStreamWaitEvent { stream: CudaStream, event: CudaEvent },
    CudaStreamQuery(CudaStream),
    CudaEventRecord(CudaEvent),
    CudaEventSynchronize(CudaEvent),
    CudaEventQuery(CudaEvent),
    CudaAddLatency(CudaStream, i64),
    FlashAttnCall {
        stream: CudaStream,
        is_fwd: bool,
        is_bf16: bool,
        batch_size: i32,
        seqlen_q: i32,
        seqlen_k: i32,
        num_heads: i32,
        num_heads_k: i32,
        head_size: i32,
        window_size_left: i32,
        window_size_right: i32,
        is_causal: bool,
    },
    NcclGetUniqueId,
    NcclCommInitRank { device: i32, rank: i32, nranks: i32, id: [u8; 128] },
    NcclCommSplit { comm: NcclComm, color: i32, key: i32 },
    NcclBcast {
        count: usize,
        dtype: NcclDatatype,
        root: i32,
        comm: NcclComm,
        stream: CudaStream,
    },
    NcclAllReduce {
        count: usize,
        dtype: NcclDatatype,
        op: NcclReduceOp,
        comm: NcclComm,
        stream: CudaStream,
    },
    NcclAllGather { count: usize, dtype: NcclDatatype, comm: NcclComm, stream: CudaStream },
    NcclReduceScatter {
        count: usize,
        dtype: NcclDatatype,
        op: NcclReduceOp,
        comm: NcclComm,
        stream: CudaStream,
    },
    NcclSend {
        count: usize,
        dtype: NcclDatatype,
        peer: i32,
        comm: NcclComm,
        stream: CudaStream,
    },
    NcclRecv {
        count: usize,
        dtype: NcclDatatype,
        peer: i32,
        comm: NcclComm,
        stream: CudaStream,
    },
    NcclP2pGroup { calls: Vec<CudaCall> },
    ReadTimer(CudaStream),
}

/// A call together with who made it and when.
#[derive(Debug, PartialEq, Eq, Hash)]
pub struct CudaCallMsg {
    pub id: ResponseId,
    pub curr_time: i64,
    pub call: CudaCall,
}

/// The answer to a blocking synchronization: when it ended.
#[derive(Clone, Copy, Debug, PartialEq, Eq, Structural)]
pub struct SyncResponse {
    pub end_time: i64,
}

/// The answer to a communicator split: the new rank and communicator.
#[derive(Clone, Copy, Debug, PartialEq, Eq)]
pub struct SplitResponse {
    pub rank: i32,
    pub nranks: i32,
    pub id: [u8; 128],
    pub sync: SyncResponse,
}

/// The color by which a rank asks for no communicator in a split.
pub const NCCL_SPLIT_NOCOLOR: i32 = -1;

} // verus!
