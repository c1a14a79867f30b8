//! How texts and bytes are taken apart and put together.

use crate::args::{core_range, cores_of, interval_cores, listed_cores, CoresErrorView};
use crate::cuda_call::{SplitResponse, SyncResponse};
use crate::lines::{
    free_of, is_white, joined, lemma_split_concat, lemma_split_one, split_text, trim_back,
    trim_front, trimmed,
};
use crate::message::{framed, MessageError, MessageKind};
use crate::simulator::hosts::ReplyBody;
use crate::text::{
    ascii_lower, decimal, digits_value, hex_text, lemma_decimal, lemma_unsigned_round_trip,
    text_le, unsigned_value,
};
use crate::torch_call::int_bytes;
use crate::wire::{body_bytes, short_bytes};
use vstd::bytes::{
    lemma_auto_spec_u32_to_from_le_bytes, lemma_auto_spec_u64_to_from_le_bytes,
    spec_u32_from_le_bytes, spec_u32_to_le_bytes, spec_u64_from_le_bytes,
};
use vstd::prelude::*;

verus! {

/// The parts of a text have no separators in them, and put together again with separators
/// between them they are the text.
pub proof fn law_split_and_joined(s: Seq<char>, sep: char)
    ensures
        split_text(s, sep).len() > 0,
        joined(split_text(s, sep), sep) == s,
        forall|i: int|
            0 <= i < split_text(s, sep).len() ==> free_of(#[trigger] split_text(s, sep)[i], sep),
    decreases s.len(),
{
    let parts = split_text(s, sep);
    if s.len() == 0 {
        assert(joined(parts, sep) =~= s);
    } else {
        let front = s.drop_last();
        let c = s.last();
        let before = split_text(front, sep);
        law_split_and_joined(front, sep);
        if c == sep {
            assert(parts.drop_last() =~= before);
            assert(joined(parts, sep) =~= front.push(sep));
            assert(front.push(sep) =~= s);
            assert forall|i: int| 0 <= i < parts.len() implies free_of(#[trigger] parts[i], sep) by {
                if i < before.len() {
                    assert(parts[i] == before[i]);
                }
            }
        } else {
            let last = before.len() - 1;
            assert(parts.drop_last() =~= before.drop_last());
            if parts.len() == 1 {
                assert(joined(before, sep) == before[0]);
                assert(joined(parts, sep) =~= front.push(c));
            } else {
                assert(joined(parts, sep) =~= joined(before, sep).push(c));
            }
            assert(front.push(c) =~= s);
            assert forall|i: int| 0 <= i < parts.len() implies free_of(#[trigger] parts[i], sep) by {
                assert(free_of(before[i], sep));
                if i == last {
                    assert forall|j: int| 0 <= j < parts[i].len() implies #[trigger] parts[i][j]
                        != sep by {
                        if j < before[i].len() {
                            assert(parts[i][j] == before[i][j]);
                        }
                    }
                } else {
                    assert(parts[i] == before[i]);
                }
            }
        }
    }
}

proof fn lemma_trim_front(s: Seq<char>) -> (lo: int)
    ensures
        0 <= lo <= s.len(),
        trim_front(s) == s.skip(lo),
        forall|i: int| 0 <= i < lo ==> is_white(#[trigger] s[i]),
        lo < s.len() ==> !is_white(s[lo]),
    decreases s.len(),
{
    if s.len() > 0 && is_white(s[0]) {
        let rest = s.skip(1);
        let k = lemma_trim_front(rest);
        assert(rest.skip(k) =~= s.skip(k + 1));
        assert forall|i: int| 0 <= i < k + 1 implies is_white(#[trigger] s[i]) by {
            if i > 0 {
                assert(is_white(rest[i - 1]));
            }
        }
        k + 1
    } else {
        assert(s.skip(0) =~= s);
        0
    }
}

proof fn lemma_trim_back(s: Seq<char>) -> (hi: int)
    ensures
        0 <= hi <= s.len(),
        trim_back(s) == s.take(hi),
        forall|i: int| hi <= i < s.len() ==> is_white(#[trigger] s[i]),
        hi > 0 ==> !is_white(s[hi - 1]),
    decreases s.len(),
{
    if s.len() > 0 && is_white(s.last()) {
        let front = s.drop_last();
        let k = lemma_trim_back(front);
        assert(front.take(k) =~= s.take(k));
        assert forall|i: int| k <= i < s.len() implies is_white(#[trigger] s[i]) by {
            if i < front.len() {
                assert(is_white(front[i]));
            }
        }
        k
    } else {
        assert(s.take(s.len() as int) =~= s);
        s.len() as int
    }
}

/// A trimmed text is what stands between the white space at both ends of it.
pub proof fn law_trimmed(s: Seq<char>) -> (ends: (int, int))
    ensures
        0 <= ends.0 <= ends.1 <= s.len(),
        trimmed(s) == s.subrange(ends.0, ends.1),
        forall|i: int| 0 <= i < ends.0 ==> is_white(#[trigger] s[i]),
        forall|i: int| ends.1 <= i < s.len() ==> is_white(#[trigger] s[i]),
        ends.0 < ends.1 ==> !is_white(s[ends.0]) && !is_white(s[ends.1 - 1]),
{
    let lo = lemma_trim_front(s);
    let mid = s.skip(lo);
    let k = lemma_trim_back(mid);
    assert(mid.take(k) =~= s.subrange(lo, lo + k));
    assert forall|i: int| lo + k <= i < s.len() implies is_white(#[trigger] s[i]) by {
        assert(is_white(mid[i - lo]));
    }
    (lo, lo + k)
}

/// The hexadecimal digits.
pub open spec fn hex_digits() -> Seq<char> {
    seq!['0', '1', '2', '3', '4', '5', '6', '7', '8', '9', 'a', 'b', 'c', 'd', 'e', 'f']
}

/// Each byte is two hexadecimal digits, the higher one first.
pub proof fn law_hex_digits(bytes: Seq<u8>, i: int)
    requires
        0 <= i < bytes.len(),
    ensures
        hex_text(bytes).len() == 2 * bytes.len(),
        hex_text(bytes)[2 * i] == hex_digits()[bytes[i] as int / 16],
        hex_text(bytes)[2 * i + 1] == hex_digits()[bytes[i] as int % 16],
    decreases bytes.len(),
{
    let front = bytes.drop_last();
    if i < front.len() {
        law_hex_digits(front, i);
    } else if front.len() > 0 {
        law_hex_digits(front, 0);
    } else {
        assert(hex_text(front).len() == 0);
    }
}

/// The last digit of a number counts ones, and the others are those of a tenth of it; read
/// again, the digits give the number.
pub proof fn law_decimal_digits(n: nat)
    ensures
        digits_value(decimal(n)) == n,
        decimal(n).last() == hex_digits()[n as int % 10],
        n < 10 ==> decimal(n).len() == 1,
        n >= 10 ==> decimal(n).drop_last() == decimal(n / 10),
{
    lemma_decimal(n);
    if n >= 10 {
        assert(decimal(n).drop_last() =~= decimal(n / 10));
    }
}

/// Where two texts are the same up to a place, they come in the order of the characters
/// there; the shorter one comes first where it is the front of the other.
pub proof fn law_text_order(a: Seq<char>, b: Seq<char>, n: int)
    requires
        0 <= n <= a.len(),
        n <= b.len(),
        a.take(n) == b.take(n),
    ensures
        n == a.len() ==> text_le(a, b),
        n < a.len() && n == b.len() ==> !text_le(a, b),
        n < a.len() && n < b.len() && a[n] != b[n] ==> (text_le(a, b) <==> a[n] < b[n]),
    decreases n,
{
    if n > 0 {
        assert(a[0] == a.take(n)[0]);
        assert(b[0] == b.take(n)[0]);
        let x = a.skip(1);
        let y = b.skip(1);
        assert(x.take(n - 1) =~= a.take(n).skip(1));
        assert(y.take(n - 1) =~= b.take(n).skip(1));
        law_text_order(x, y, n - 1);
    }
}

/// Capital letters become small ones, and no other character changes.
pub proof fn law_lower_case(c: char)
    ensures
        'A' <= c <= 'Z' ==> 'a' <= ascii_lower(c) <= 'z' && ascii_lower(c) as int - 'a' as int
            == c as int - 'A' as int,
        !('A' <= c <= 'Z') ==> ascii_lower(c) == c,
{
}

/// Two numbers with a hyphen between them are all the cores from the first to the second,
/// in order, and one number is one core.
pub proof fn law_core_intervals(a: nat, b: nat)
    requires
        a <= usize::MAX,
        b <= usize::MAX,
    ensures
        interval_cores(decimal(a)) == Ok::<Seq<usize>, CoresErrorView>(seq![a as usize]),
        interval_cores(decimal(a).push('-') + decimal(b)) is Ok,
        ({
            let cores = interval_cores(decimal(a).push('-') + decimal(b))->Ok_0;
            &&& a <= b ==> cores.len() == b - a + 1
            &&& a > b ==> cores.len() == 0
            &&& forall|i: int| 0 <= i < cores.len() ==> #[trigger] cores[i] == a + i
        }),
{
    lemma_decimal(a);
    lemma_decimal(b);
    lemma_unsigned_round_trip(a, usize::MAX as nat);
    lemma_unsigned_round_trip(b, usize::MAX as nat);
    lemma_split_one(decimal(a), '-');
    crate::lines::lemma_split_push(decimal(a), decimal(b), '-');
    let ends = split_text(decimal(a).push('-') + decimal(b), '-');
    assert(ends =~= seq![decimal(a), decimal(b)]);
    assert(core_range(a, b).len() == if a <= b {
        (b - a + 1) as nat
    } else {
        0
    });
}

/// What is no number is no core, and what has more than one hyphen is no interval.
pub proof fn law_core_errors(s: Seq<char>)
    ensures
        free_of(s, '-') && unsigned_value(s, usize::MAX as nat) is None ==> interval_cores(s)
            == Err::<Seq<usize>, CoresErrorView>(CoresErrorView::Number(s)),
        split_text(s, '-').len() > 2 ==> interval_cores(s) == Err::<Seq<usize>, CoresErrorView>(
            CoresErrorView::Range(s),
        ),
{
    if free_of(s, '-') {
        lemma_split_one(s, '-');
    }
}

proof fn lemma_cores_concat(a: Seq<Seq<char>>, b: Seq<Seq<char>>, n: int)
    requires
        0 <= n <= b.len(),
    ensures
        cores_of(a + b, a.len() + n) == match cores_of(a, a.len() as int) {
            Err(e) => Err(e),
            Ok(x) => match cores_of(b, n) {
                Err(e) => Err(e),
                Ok(y) => Ok(x + y),
            },
        },
    decreases n,
{
    if n == 0 {
        lemma_cores_front(a, b, a.len() as int);
        if let Ok(x) = cores_of(a, a.len() as int) {
            assert(x + Seq::<usize>::empty() =~= x);
        }
    } else {
        lemma_cores_concat(a, b, n - 1);
        assert((a + b)[a.len() + n - 1] == b[n - 1]);
        if let Ok(x) = cores_of(a, a.len() as int) {
            if let Ok(y) = cores_of(b, n - 1) {
                if let Ok(z) = interval_cores(b[n - 1]) {
                    assert((x + y) + z =~= x + (y + z));
                }
            }
        }
    }
}

proof fn lemma_cores_front(a: Seq<Seq<char>>, b: Seq<Seq<char>>, n: int)
    requires
        0 <= n <= a.len(),
    ensures
        cores_of(a + b, n) == cores_of(a, n),
    decreases n,
{
    if n > 0 {
        lemma_cores_front(a, b, n - 1);
        assert((a + b)[n - 1] == a[n - 1]);
    }
}

/// Two lists with a comma between them list the cores of the first and then those of the
/// second; what is wrong first is what is told. A list without commas is one interval.
pub proof fn law_cores_listed(a: Seq<char>, b: Seq<char>)
    ensures
        free_of(a, ',') ==> listed_cores(a) == interval_cores(a),
        listed_cores(a.push(',') + b) == match listed_cores(a) {
            Err(e) => Err(e),
            Ok(x) => match listed_cores(b) {
                Err(e) => Err(e),
                Ok(y) => Ok(x + y),
            },
        },
{
    if free_of(a, ',') {
        lemma_split_one(a, ',');
        assert(cores_of(seq![a], 0) == Ok::<Seq<usize>, CoresErrorView>(seq![]));
        if let Ok(x) = interval_cores(a) {
            assert(Seq::<usize>::empty() + x =~= x);
        }
    }
    lemma_split_concat(a.push(','), b, ',');
    assert(a.push(',').drop_last() =~= a);
    let x = split_text(a, ',');
    let y = split_text(b, ',');
    assert(split_text(a.push(','), ',') == x.push(seq![]));
    assert(x.push(seq![]).drop_last() =~= x);
    assert(Seq::<char>::empty() + y[0] =~= y[0]);
    assert(split_text(a.push(',') + b, ',') =~= x + y);
    lemma_cores_concat(x, y, y.len() as int);
}

/// The last byte of a message says what it is, and all bytes before it are its content.
pub proof fn law_last_byte_tells(content: Seq<u8>, tag: u8)
    ensures
        framed(seq![]) == Err::<(MessageKind, nat), MessageError>(MessageError::Empty),
        framed(content.push(tag)) matches Ok((kind, n)) ==> n == content.len(),
        framed(content.push(tag)) is Ok <==> 1 <= tag <= 3,
        tag == 1 ==> framed(content.push(tag))->Ok_0.0 == MessageKind::Cuda,
        tag == 2 ==> framed(content.push(tag))->Ok_0.0 == MessageKind::Torch,
        tag == 3 ==> framed(content.push(tag))->Ok_0.0 == MessageKind::Exit,
        !(1 <= tag <= 3) ==> framed(content.push(tag)) == Err::<(MessageKind, nat), MessageError>(
            MessageError::UnknownTag(tag),
        ),
{
}

/// The number that eight bytes stand for, the lowest first.
pub open spec fn long_at(bytes: Seq<u8>, at: int) -> u64 {
    spec_u64_from_le_bytes(bytes.subrange(at, at + 8))
}

/// The number that four bytes stand for, the lowest first.
pub open spec fn short_at(bytes: Seq<u8>, at: int) -> u32 {
    spec_u32_from_le_bytes(bytes.subrange(at, at + 4))
}

proof fn lemma_long(n: i64)
    ensures
        int_bytes(n).len() == 8,
        spec_u64_from_le_bytes(int_bytes(n)) == n as u64,
{
    lemma_auto_spec_u64_to_from_le_bytes();
}

proof fn lemma_short(n: i32)
    ensures
        short_bytes(n).len() == 4,
        spec_u32_from_le_bytes(short_bytes(n)) == n as u32,
{
    lemma_auto_spec_u32_to_from_le_bytes();
    assert(spec_u32_to_le_bytes(n as u32).len() == 4);
}

/// The answer to a wait is the time of its end. The answer to a poll says first whether
/// there is a time, and then the time.
pub proof fn law_time_answers(s: SyncResponse, time: i64)
    ensures
        body_bytes(ReplyBody::Sync(s)).len() == 8,
        long_at(body_bytes(ReplyBody::Sync(s)), 0) == s.end_time as u64,
        body_bytes(ReplyBody::Query(None)) == seq![0u8],
        body_bytes(ReplyBody::Query(Some(time))).len() == 9,
        body_bytes(ReplyBody::Query(Some(time)))[0] == 1,
        long_at(body_bytes(ReplyBody::Query(Some(time))), 1) == time as u64,
{
    lemma_long(s.end_time);
    lemma_long(time);
    assert(body_bytes(ReplyBody::Sync(s)).subrange(0, 8) =~= int_bytes(s.end_time));
    assert(body_bytes(ReplyBody::Query(Some(time))).subrange(1, 9) =~= int_bytes(time));
}

/// The answer to a split holds the rank, the number of ranks, the identifier and the time,
/// in this order; that to a rank without a color is one byte, and that to a request for an
/// identifier the identifier.
pub proof fn law_split_answers(s: SplitResponse, id: [u8; 128])
    ensures
        ({
            let bytes = body_bytes(ReplyBody::Split(s));
            &&& bytes.len() == 144
            &&& short_at(bytes, 0) == s.rank as u32
            &&& short_at(bytes, 4) == s.nranks as u32
            &&& bytes.subrange(8, 136) == s.id@
            &&& long_at(bytes, 136) == s.sync.end_time as u64
        }),
        body_bytes(ReplyBody::NoColor) == seq![0u8],
        body_bytes(ReplyBody::UniqueId(id)) == id@,
{
    let bytes = body_bytes(ReplyBody::Split(s));
    lemma_short(s.rank);
    lemma_short(s.nranks);
    lemma_long(s.sync.end_time);
    assert(bytes.subrange(0, 4) =~= short_bytes(s.rank));
    assert(bytes.subrange(4, 8) =~= short_bytes(s.nranks));
    assert(bytes.subrange(8, 136) =~= s.id@);
    assert(bytes.subrange(136, 144) =~= int_bytes(s.sync.end_time));
}

} // verus!
