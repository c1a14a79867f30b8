//! Identifiers of NCCL communicators.

use crate::table::MapKey;
use crate::text::{hex_text, push_hex};
use vstd::arithmetic::power::pow;
use vstd::prelude::*;

verus! {

/// The identifier of a communicator.
#[derive(Clone, Copy, Debug, PartialEq, Eq, Hash)]
pub struct NcclId(pub [u8; 128]);

impl View for NcclId {
    type V = Seq<u8>;

    open spec fn view(&self) -> Seq<u8> {
        self.0@
    }
}

impl MapKey for NcclId {
    fn same_key(&self, other: &Self) -> (b: bool) {
        let mut i: usize = 0;
        while i < 128
            invariant
                i <= 128,
                forall|j: int| 0 <= j < i ==> self.0@[j] == other.0@[j],
            decreases 128 - i,
        {
            if self.0[i] != other.0[i] {
                return false;
            }
            i += 1;
        }
        assert(self.0@ =~= other.0@);
        true
    }
}

/// The identifier whose bytes are all the same.
pub open spec fn filled_id(byte: u8) -> [u8; 128] {
    vstd::array::spec_array_fill_for_copy_type::<u8, 128>(byte)
}

/// The number whose base-256 digits, lowest first, are the bytes of an identifier.
pub open spec fn id_number(bytes: Seq<u8>) -> nat
    decreases bytes.len(),
{
    if bytes.len() == 0 {
        0
    } else {
        (bytes[0] as nat) + 256 * id_number(bytes.skip(1))
    }
}

/// The number of identifiers.
pub open spec fn id_count() -> nat {
    pow(256, 128) as nat
}

proof fn lemma_id_bound(bytes: Seq<u8>)
    ensures
        id_number(bytes) < pow(256, bytes.len()),
    decreases bytes.len(),
{
    reveal(pow);
    if bytes.len() > 0 {
        lemma_id_bound(bytes.skip(1));
        assert(pow(256, bytes.len()) == 256 * pow(256, (bytes.len() - 1) as nat));
    }
}

/// Different identifiers have different numbers.
pub proof fn lemma_id_unique(a: Seq<u8>, b: Seq<u8>)
    requires
        a.len() == b.len(),
        id_number(a) == id_number(b),
    ensures
        a == b,
    decreases a.len(),
{
    if a.len() > 0 {
        assert(a[0] == b[0] && id_number(a.skip(1)) == id_number(b.skip(1)));
        lemma_id_unique(a.skip(1), b.skip(1));
        assert forall|i: int| 0 <= i < a.len() implies a[i] == b[i] by {
            if i > 0 {
                assert(a.skip(1)[i - 1] == b.skip(1)[i - 1]);
            }
        }
    }
    assert(a =~= b);
}

/// Adding one to an identifier whose first `n` bytes are 255.
proof fn lemma_carry(before: Seq<u8>, after: Seq<u8>, n: int)
    requires
        0 <= n <= before.len(),
        after.len() == before.len(),
        forall|j: int| 0 <= j < n ==> #[trigger] before[j] == 255,
        forall|j: int| 0 <= j < n ==> #[trigger] after[j] == 0,
        n < before.len() ==> before[n] != 255 && after[n] == before[n] + 1,
        forall|j: int| n < j < before.len() ==> after[j] == before[j],
    ensures
        n < before.len() ==> id_number(after) == id_number(before) + 1,
        n == before.len() ==> id_number(after) == 0 && id_number(before) + 1 == pow(
            256,
            before.len(),
        ),
    decreases before.len(),
{
    reveal(pow);
    if before.len() > 0 {
        if n == 0 {
            assert(before.skip(1) =~= after.skip(1));
        } else {
            lemma_carry(before.skip(1), after.skip(1), n - 1);
            assert(pow(256, before.len()) == 256 * pow(256, (before.len() - 1) as nat));
        }
    }
}

/// The identifier that comes after another. Behind the last one comes the first.
pub open spec fn next_id(id: [u8; 128]) -> [u8; 128] {
    choose|n: [u8; 128]| #[trigger] id_number(n@) == (id_number(id@) + 1) % id_count()
}

proof fn lemma_next_id(id: [u8; 128], n: [u8; 128])
    requires
        id_number(n@) == (id_number(id@) + 1) % id_count(),
    ensures
        n == next_id(id),
{
    let m = next_id(id);
    assert(id_number(m@) == (id_number(id@) + 1) % id_count());
    lemma_id_unique(m@, n@);
    assert(m =~= n);
}

/// The number of every identifier is below the number of identifiers.
pub proof fn lemma_id_count(id: [u8; 128])
    ensures
        id_number(id@) < id_count(),
{
    lemma_id_bound(id@);
}

spec fn zeroed(id: [u8; 128], n: int) -> [u8; 128]
    decreases n,
{
    if n <= 0 {
        id
    } else {
        vstd::array::spec_array_update(zeroed(id, n - 1), n - 1, 0u8)
    }
}

proof fn lemma_zeroed(id: [u8; 128], n: int)
    requires
        0 <= n <= 128,
    ensures
        forall|j: int|
            0 <= j < 128 ==> #[trigger] zeroed(id, n)@[j] == if j < n {
                0
            } else {
                id@[j]
            },
    decreases n,
{
    if n > 0 {
        lemma_zeroed(id, n - 1);
        let before = zeroed(id, n - 1);
        assert(zeroed(id, n)@ == before@.update(n - 1, 0u8));
        assert forall|j: int| 0 <= j < 128 implies #[trigger] zeroed(id, n)@[j] == if j < n {
            0
        } else {
            id@[j]
        } by {
            assert(before@[j] == if j < n - 1 {
                0
            } else {
                id@[j]
            });
        }
    }
}

spec fn leading_full(bytes: Seq<u8>, i: int) -> int
    decreases bytes.len() - i,
{
    if i < 0 || i >= bytes.len() || bytes[i] != 255 {
        i
    } else {
        leading_full(bytes, i + 1)
    }
}

proof fn lemma_leading_full(bytes: Seq<u8>, i: int)
    requires
        0 <= i <= bytes.len(),
        forall|j: int| 0 <= j < i ==> #[trigger] bytes[j] == 255,
    ensures
        i <= leading_full(bytes, i) <= bytes.len(),
        forall|j: int| 0 <= j < leading_full(bytes, i) ==> #[trigger] bytes[j] == 255,
        leading_full(bytes, i) < bytes.len() ==> bytes[leading_full(bytes, i)] != 255,
    decreases bytes.len() - i,
{
    if i < bytes.len() && bytes[i] == 255 {
        lemma_leading_full(bytes, i + 1);
    }
}

/// The number of an identifier is one larger than that of the identifier before.
pub proof fn lemma_next_number(id: [u8; 128])
    ensures
        id_number(next_id(id)@) == (id_number(id@) + 1) % id_count(),
{
    let n = leading_full(id@, 0);
    lemma_leading_full(id@, 0);
    lemma_zeroed(id, n);
    lemma_id_bound(id@);
    if n < 128 {
        let w = vstd::array::spec_array_update(zeroed(id, n), n, (id@[n] + 1) as u8);
        lemma_carry(id@, w@, n);
        lemma_id_bound(w@);
        vstd::arithmetic::div_mod::lemma_small_mod(id_number(w@), id_count());
        assert(id_number(w@) == (id_number(id@) + 1) % id_count());
    } else {
        let w = zeroed(id, n);
        lemma_carry(id@, w@, n);
        vstd::arithmetic::div_mod::lemma_mod_self_0(id_count() as int);
        assert(id_number(w@) == (id_number(id@) + 1) % id_count());
    }
}

/// The first byte of an identifier counts up. A byte that is full starts again and has the
/// one behind it count up; the bytes behind that one stay. Behind the last identifier comes
/// the one whose bytes are all zero.
pub proof fn law_bytes_count_up(id: [u8; 128], n: int, j: int)
    requires
        0 <= n <= 128,
        forall|i: int| 0 <= i < n ==> #[trigger] id@[i] == 255,
        n < 128 ==> id@[n] != 255,
        0 <= j < 128,
    ensures
        j < n ==> next_id(id)@[j] == 0,
        j == n ==> next_id(id)@[j] == id@[j] + 1,
        j > n ==> next_id(id)@[j] == id@[j],
{
    lemma_zeroed(id, n);
    lemma_id_bound(id@);
    if n < 128 {
        let w = vstd::array::spec_array_update(zeroed(id, n), n, (id@[n] + 1) as u8);
        assert(w@ == zeroed(id, n)@.update(n, (id@[n] + 1) as u8));
        lemma_carry(id@, w@, n);
        lemma_id_bound(w@);
        vstd::arithmetic::div_mod::lemma_small_mod(id_number(w@), id_count());
        lemma_next_id(id, w);
        assert(j != n ==> w@[j] == zeroed(id, n)@[j]);
    } else {
        let w = zeroed(id, n);
        lemma_carry(id@, w@, n);
        vstd::arithmetic::div_mod::lemma_mod_self_0(id_count() as int);
        lemma_next_id(id, w);
        assert(w@[j] == 0);
    }
}

/// Counts an identifier up by one and gives the one it had before. Behind the
/// last identifier comes the first.
pub fn incr_nccl_id(id: &mut [u8; 128]) -> (prev: [u8; 128])
    ensures
        prev == *old(id),
        *final(id) == next_id(*old(id)),
        id_number(final(id)@) == (id_number(old(id)@) + 1) % id_count(),
{
    let prev = *id;
    proof {
        lemma_id_bound(prev@);
        lemma_id_bound(id@);
    }
    let mut i: usize = 0;
    while i < 128
        invariant
            i <= 128,
            prev == *old(id),
            forall|j: int| 0 <= j < i ==> #[trigger] prev@[j] == 255,
            forall|j: int| 0 <= j < i ==> #[trigger] id@[j] == 0,
            forall|j: int| i <= j < 128 ==> #[trigger] id@[j] == prev@[j],
        decreases 128 - i,
    {
        if id[i] != 255 {
            id[i] = id[i] + 1;
            proof {
                lemma_carry(prev@, id@, i as int);
                lemma_id_bound(id@);
                vstd::arithmetic::div_mod::lemma_small_mod(id_number(id@), id_count());
                lemma_next_id(prev, *id);
            }
            return prev;
        }
        id[i] = 0;
        i += 1;
    }
    proof {
        lemma_carry(prev@, id@, 128);
        vstd::arithmetic::div_mod::lemma_mod_self_0(id_count() as int);
        lemma_next_id(prev, *id);
    }
    prev
}

/// The first eight bytes of an identifier in hexadecimal digits.
pub fn short_nccl_id(id: &NcclId) -> (s: String)
    ensures
        s@ == hex_text(id@.take(8)),
{
    let mut s = String::new();
    let mut i: usize = 0;
    assert(id@.take(0) =~= seq![]);
    while i < 8
        invariant
            i <= 8,
            s@ == hex_text(id@.take(i as int)),
        decreases 8 - i,
    {
        push_hex(&mut s, id.0[i]);
        assert(id@.take(i + 1).drop_last() =~= id@.take(i as int));
        i += 1;
    }
    s
}

/// The identifier that is given out after `n` others, counted from zero bytes.
pub open spec fn nth_id_number(n: nat) -> nat {
    n % id_count()
}

/// Identifiers given out by counting up from one another are different as long
/// as fewer than all of them have been given out in between.
pub proof fn law_ids_distinct(start: nat, a: nat, b: nat)
    requires
        a < b,
        b - a < id_count(),
    ensures
        nth_id_number(start + a) != nth_id_number(start + b),
{
    let m = id_count() as int;
    if nth_id_number(start + a) == nth_id_number(start + b) {
        vstd::arithmetic::div_mod::lemma_fundamental_div_mod((start + a) as int, m);
        vstd::arithmetic::div_mod::lemma_fundamental_div_mod((start + b) as int, m);
        let qa = (start + a) as int / m;
        let qb = (start + b) as int / m;
        assert(b - a == m * qb - m * qa);
        assert(m * qb - m * qa == m * (qb - qa)) by (nonlinear_arith);
        if qb - qa <= 0 {
            assert(m * (qb - qa) <= 0) by (nonlinear_arith)
                requires
                    qb - qa <= 0,
                    m >= 0,
            ;
        } else {
            assert(m * (qb - qa) >= m) by (nonlinear_arith)
                requires
                    qb - qa >= 1,
                    m >= 0,
            ;
        }
    }
}

} // verus!
