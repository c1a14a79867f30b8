//! Messages to the simulator as they arrive: the last byte tells what the others are.

use crate::cuda_call::{HostId, ResponseId};
use vstd::prelude::*;

verus! {

/// What the bytes of a message are.
#[derive(Clone, Copy, Debug, PartialEq, Eq, Structural)]
pub enum MessageKind {
    /// A CUDA or NCCL call.
    Cuda,
    /// A traced operator.
    Torch,
    /// The end of a process.
    Exit,
}

/// Why a message cannot be read.
#[derive(Clone, Copy, Debug, PartialEq, Eq, Structural)]
pub enum MessageError {
    /// There are no bytes.
    Empty,
    /// The last byte stands for nothing.
    UnknownTag(u8),
}

/// What the bytes of a message are, and how many of them there are.
pub open spec fn framed(bytes: Seq<u8>) -> Result<(MessageKind, nat), MessageError> {
    if bytes.len() == 0 {
        Err(MessageError::Empty)
    } else {
        let n = (bytes.len() - 1) as nat;
        match bytes.last() {
            1 => Ok((MessageKind::Cuda, n)),
            2 => Ok((MessageKind::Torch, n)),
            3 => Ok((MessageKind::Exit, n)),
            tag => Err(MessageError::UnknownTag(tag)),
        }
    }
}

/// What the bytes of a message are, and how many of them there are before the last,
/// which tells.
pub fn message_kind(bytes: &Vec<u8>) -> (r: Result<(MessageKind, usize), MessageError>)
    ensures
        match r {
            Ok((kind, n)) => framed(bytes@) == Ok::<(MessageKind, nat), MessageError>(
                (kind, n as nat),
            ),
            Err(e) => framed(bytes@) == Err::<(MessageKind, nat), MessageError>(e),
        },
{
    if bytes.len() == 0 {
        return Err(MessageError::Empty);
    }
    let n: usize = bytes.len() - 1;
    match bytes[n] {
        1 => Ok((MessageKind::Cuda, n)),
        2 => Ok((MessageKind::Torch, n)),
        3 => Ok((MessageKind::Exit, n)),
        tag => Err(MessageError::UnknownTag(tag)),
    }
}

/// The end of a process, as it is told.
#[derive(Debug)]
pub struct ExitJson {
    pub pid: u32,
    pub tid: i32,
    pub hostname: String,
    pub cur: i64,
}

impl ExitJson {
    /// Who ended, and when.
    pub fn into_exit(self) -> (r: (ResponseId, i64))
        ensures
            r.0 == (ResponseId {
                host: HostId { hostname: self.hostname, pid: self.pid },
                tid: self.tid,
            }),
            r.1 == self.cur,
    {
        (
            ResponseId {
                host: HostId { hostname: self.hostname, pid: self.pid },
                tid: self.tid,
            },
            self.cur,
        )
    }
}

} // verus!
