//! Answers to threads as bytes, written with `bincode`.

use crate::simulator::hosts::ReplyBody;
use crate::torch_call::int_bytes;
use vstd::bytes::{
    lemma_auto_spec_u64_to_from_le_bytes, spec_u32_to_le_bytes, spec_u64_to_le_bytes,
};
use vstd::prelude::*;

verus! {

/// The little-endian bytes of a short number.
pub open spec fn short_bytes(n: i32) -> Seq<u8> {
    spec_u32_to_le_bytes(n as u32)
}

/// The bytes of the result of a poll: one that tells whether there is a time, and the
/// time.
pub open spec fn poll_bytes(time: Option<i64>) -> Seq<u8> {
    match time {
        None => seq![0u8],
        Some(t) => seq![1u8] + int_bytes(t),
    }
}

/// The bytes of an answer.
pub open spec fn body_bytes(body: ReplyBody) -> Seq<u8> {
    match body {
        ReplyBody::Sync(s) => int_bytes(s.end_time),
        ReplyBody::Query(time) => poll_bytes(time),
        ReplyBody::Split(s) => short_bytes(s.rank) + short_bytes(s.nranks) + s.id@ + int_bytes(
            s.sync.end_time,
        ),
        ReplyBody::NoColor => seq![0u8],
        ReplyBody::UniqueId(id) => id@,
    }
}

/// Calls `bincode::serialize` on a number of 64 bits. Claims that it writes its eight
/// bytes, the lowest first, and does not fail.
#[verifier::external_body]
fn serialize_time(time: i64) -> (bytes: Vec<u8>)
    ensures
        bytes@ == int_bytes(time),
{
    bincode::serialize(&time).unwrap()
}

/// Calls `bincode::serialize` on an option of a number. Claims that it writes a zero for
/// none, and a one and the eight bytes of the number otherwise, and does not fail.
#[verifier::external_body]
fn serialize_poll(time: Option<i64>) -> (bytes: Vec<u8>)
    ensures
        bytes@ == poll_bytes(time),
{
    bincode::serialize(&time).unwrap()
}

/// Calls `bincode::serialize` on a pair of numbers of 32 bits. Claims that it writes the
/// four bytes of the first and those of the second, the lowest first, and does not fail.
#[verifier::external_body]
fn serialize_ranks(rank: i32, nranks: i32) -> (bytes: Vec<u8>)
    ensures
        bytes@ == short_bytes(rank) + short_bytes(nranks),
{
    bincode::serialize(&(rank, nranks)).unwrap()
}

fn push_id(bytes: &mut Vec<u8>, id: &[u8; 128])
    ensures
        final(bytes)@ == old(bytes)@ + id@,
{
    let ghost before = bytes@;
    let mut i: usize = 0;
    assert(bytes@ =~= before + id@.take(0));
    while i < 128
        invariant
            i <= 128,
            bytes@ == before + id@.take(i as int),
        decreases 128 - i,
    {
        bytes.push(id[i]);
        assert(bytes@ =~= before + id@.take(i + 1));
        i += 1;
    }
    assert(id@.take(128) =~= id@);
}

/// The bytes of an answer, as they are sent.
pub fn reply_bytes(body: &ReplyBody) -> (bytes: Vec<u8>)
    ensures
        bytes@ == body_bytes(*body),
{
    match body {
        ReplyBody::Sync(s) => serialize_time(s.end_time),
        ReplyBody::Query(time) => serialize_poll(*time),
        ReplyBody::Split(s) => {
            let mut bytes = serialize_ranks(s.rank, s.nranks);
            push_id(&mut bytes, &s.id);
            let mut time = serialize_time(s.sync.end_time);
            bytes.append(&mut time);
            bytes
        },
        ReplyBody::NoColor => vec![0u8],
        ReplyBody::UniqueId(id) => {
            let mut bytes: Vec<u8> = Vec::new();
            push_id(&mut bytes, id);
            assert(bytes@ =~= id@);
            bytes
        },
    }
}

proof fn lemma_time_bytes(a: i64, b: i64)
    ensures
        int_bytes(a).len() == 8,
        int_bytes(a) == int_bytes(b) ==> a == b,
{
    lemma_auto_spec_u64_to_from_le_bytes();
    assert(spec_u64_to_le_bytes(a as u64).len() == 8);
    assert(spec_u64_to_le_bytes(b as u64).len() == 8);
    assert(a as u64 == b as u64 ==> a == b) by (bit_vector);
}

/// The end of a wait and the result of a poll can be told from their bytes.
pub proof fn law_times_told_apart(a: i64, b: i64, p: Option<i64>, q: Option<i64>)
    ensures
        int_bytes(a) == int_bytes(b) ==> a == b,
        poll_bytes(p) == poll_bytes(q) ==> p == q,
        int_bytes(a) != poll_bytes(p),
{
    lemma_time_bytes(a, b);
    match (p, q) {
        (Some(s), Some(t)) => {
            lemma_time_bytes(s, t);
            if poll_bytes(p) == poll_bytes(q) {
                assert(poll_bytes(p).skip(1) =~= int_bytes(s));
                assert(poll_bytes(q).skip(1) =~= int_bytes(t));
            }
        },
        (Some(s), None) => {
            lemma_time_bytes(s, s);
        },
        (None, Some(t)) => {
            lemma_time_bytes(t, t);
            assert(poll_bytes(p).len() == 1 && poll_bytes(q).len() == 9);
        },
        (None, None) => {},
    }
}

} // verus!
