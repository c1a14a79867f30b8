//! The tensors kept on the GPU between measurements.
//!
//! The tensors themselves are held elsewhere, in numbered slots. Here it is decided
//! which slot holds a tensor of some size and element type, and which slot is given
//! up for a new one: that of the tensor whose last use is longest ago.

use crate::torch_call::{Kind, TensorInfo, TensorView};
use lru::LruCache;
use std::num::NonZeroUsize;
use vstd::prelude::*;

verus! {

/// How many tensors are kept.
pub const CACHED_TENSORS: usize = 32;

/// Caches of `lru`, which are opaque here. What one holds has names, see
/// [`lru_entries`] and [`lru_limit`].
#[verifier::external_type_specification]
#[verifier::external_body]
#[verifier::reject_recursive_types(K)]
#[verifier::reject_recursive_types(V)]
#[verifier::reject_recursive_types(S)]
pub struct ExLruCache<K, V, S>(lru::LruCache<K, V, S>);

/// The hasher that caches of `lru` have, which is opaque here.
#[verifier::external_type_specification]
#[verifier::external_body]
pub struct ExLruHasher(lru::DefaultHasher);

/// The size and the element type by which a tensor is found.
pub type TensorKey = (i64, u8);

/// What a cache holds: the slot of each key, the one used last in front.
pub type Entries = Seq<(TensorKey, usize)>;

/// What a cache holds, the entry used last in front.
pub uninterp spec fn lru_entries(c: LruCache<TensorKey, usize>) -> Entries;

/// How many entries a cache holds at most.
pub uninterp spec fn lru_limit(c: LruCache<TensorKey, usize>) -> nat;

/// Whether some entries have a key.
pub open spec fn has_key(e: Entries, key: TensorKey) -> bool {
    exists|i: int| 0 <= i < e.len() && (#[trigger] e[i]).0 == key
}

/// Where the entry of a key stands.
pub open spec fn key_index(e: Entries, key: TensorKey) -> int {
    choose|i: int| 0 <= i < e.len() && (#[trigger] e[i]).0 == key
}

/// The slot of a key, if it has one.
pub open spec fn slot_of(e: Entries, key: TensorKey) -> Option<usize> {
    if has_key(e, key) {
        Some(e[key_index(e, key)].1)
    } else {
        None
    }
}

/// The entries after that of a key was used: it stands in front.
pub open spec fn used(e: Entries, key: TensorKey) -> Entries {
    if has_key(e, key) {
        seq![e[key_index(e, key)]] + e.remove(key_index(e, key))
    } else {
        e
    }
}

/// The entries after a slot was stored under a key. The entry stands in front; it
/// takes the place of that of the same key, or of the last one where there is no room.
pub open spec fn stored(e: Entries, limit: nat, key: TensorKey, slot: usize) -> Entries {
    if has_key(e, key) {
        seq![(key, slot)] + e.remove(key_index(e, key))
    } else if e.len() == limit {
        seq![(key, slot)] + e.drop_last()
    } else {
        seq![(key, slot)] + e
    }
}

/// Calls `lru::LruCache::new`. Claims that the cache is empty and holds at most `limit`
/// entries. The bound keeps what is allocated at once small.
#[verifier::external_body]
fn new_lru(limit: usize) -> (c: LruCache<TensorKey, usize>)
    requires
        0 < limit <= 65536,
    ensures
        lru_entries(c) == Seq::<(TensorKey, usize)>::empty(),
        lru_limit(c) == limit,
{
    LruCache::new(NonZeroUsize::new(limit).unwrap())
}

/// Calls `lru::LruCache::get`. Claims that it returns the value of the key, if there is
/// one, and moves its entry to the front.
#[verifier::external_body]
fn lru_get(c: &mut LruCache<TensorKey, usize>, key: TensorKey) -> (r: Option<usize>)
    ensures
        r == slot_of(lru_entries(*old(c)), key),
        lru_entries(*final(c)) == used(lru_entries(*old(c)), key),
        lru_limit(*final(c)) == lru_limit(*old(c)),
{
    c.get(&key).copied()
}

/// Calls `lru::LruCache::put`. Claims that it puts the entry in front, in place of the
/// entry of the same key or, where the cache is full, of the last one, and returns the
/// value that the key had.
#[verifier::external_body]
fn lru_put(c: &mut LruCache<TensorKey, usize>, key: TensorKey, slot: usize) -> (r: Option<usize>)
    ensures
        r == slot_of(lru_entries(*old(c)), key),
        lru_entries(*final(c)) == stored(lru_entries(*old(c)), lru_limit(*old(c)), key, slot),
        lru_limit(*final(c)) == lru_limit(*old(c)),
{
    c.put(key, slot)
}

/// Calls `lru::LruCache::len`. Claims that it returns the number of entries.
#[verifier::external_body]
fn lru_len(c: &LruCache<TensorKey, usize>) -> (n: usize)
    ensures
        n == lru_entries(*c).len(),
{
    c.len()
}

/// Calls `lru::LruCache::peek_lru`. Claims that it returns the last entry, if there is
/// one.
#[verifier::external_body]
fn lru_last(c: &LruCache<TensorKey, usize>) -> (r: Option<(TensorKey, usize)>)
    ensures
        match r {
            Some(x) => lru_entries(*c).len() > 0 && x == lru_entries(*c).last(),
            None => lru_entries(*c).len() == 0,
        },
{
    c.peek_lru().map(|x| (*x.0, *x.1))
}

/// What the elements of a fresh tensor are drawn from.
#[derive(Clone, Copy, Debug, PartialEq, Eq, Structural)]
pub enum KindRange {
    Integer,
    Bool,
    Float,
}

/// What the elements of a tensor of some element type are drawn from.
pub open spec fn range_of(kind: Kind) -> KindRange {
    match kind {
        Kind::Bool => KindRange::Bool,
        Kind::Uint8
        | Kind::Int8
        | Kind::Int16
        | Kind::UInt16
        | Kind::Int
        | Kind::Int64
        | Kind::UInt32
        | Kind::UInt64 => KindRange::Integer,
        _ => KindRange::Float,
    }
}

/// What the elements of a tensor of some element type are drawn from.
pub fn kind_range(kind: Kind) -> (r: KindRange)
    ensures
        r == range_of(kind),
{
    match kind {
        Kind::Bool => KindRange::Bool,
        Kind::Uint8
        | Kind::Int8
        | Kind::Int16
        | Kind::UInt16
        | Kind::Int
        | Kind::Int64
        | Kind::UInt32
        | Kind::UInt64 => KindRange::Integer,
        _ => KindRange::Float,
    }
}

/// How many elements a tensor of some shape has.
pub open spec fn elements(shape: Seq<i64>) -> int
    decreases shape.len(),
{
    if shape.len() == 0 {
        1
    } else {
        elements(shape.drop_last()) * shape.last()
    }
}

/// Whether the number of elements can be counted, dimension by dimension.
pub open spec fn countable(shape: Seq<i64>) -> bool {
    forall|n: int|
        0 <= n <= shape.len() ==> i64::MIN <= elements(#[trigger] shape.take(n)) <= i64::MAX
}

/// Whether the number of elements can be counted, dimension by dimension.
pub fn is_countable(shape: &Vec<i64>) -> (b: bool)
    ensures
        b == countable(shape@),
{
    let mut n: i64 = 1;
    let mut i: usize = 0;
    assert(shape@.take(0) =~= seq![]);
    while i < shape.len()
        invariant
            i <= shape@.len(),
            n == elements(shape@.take(i as int)),
            forall|k: int|
                0 <= k <= i ==> i64::MIN <= elements(#[trigger] shape@.take(k)) <= i64::MAX,
        decreases shape@.len() - i,
    {
        assert(shape@.take(i + 1).drop_last() =~= shape@.take(i as int));
        match n.checked_mul(shape[i]) {
            Some(m) => {
                n = m;
            },
            None => {
                assert(!(i64::MIN <= elements(shape@.take(i + 1)) <= i64::MAX));
                return false;
            },
        }
        i += 1;
    }
    true
}

/// How many elements a tensor of some shape has.
pub fn total_size(shape: &Vec<i64>) -> (n: i64)
    requires
        countable(shape@),
    ensures
        n == elements(shape@),
{
    let mut n: i64 = 1;
    let mut i: usize = 0;
    assert(shape@.take(0) =~= seq![]);
    while i < shape.len()
        invariant
            i <= shape@.len(),
            countable(shape@),
            n == elements(shape@.take(i as int)),
        decreases shape@.len() - i,
    {
        assert(shape@.take(i + 1).drop_last() =~= shape@.take(i as int));
        n = n * shape[i];
        i += 1;
    }
    assert(shape@.take(shape@.len() as int) =~= shape@);
    n
}

/// The key of a tensor.
pub open spec fn tensor_key(t: TensorView) -> TensorKey {
    (elements(t.shape) as i64, t.dtype.code())
}

/// Where a tensor that is stored goes: to the slot of its key, to a slot that no tensor
/// has yet, or to that of the last entry.
pub open spec fn slot_for(e: Entries, key: TensorKey) -> usize {
    if has_key(e, key) {
        e[key_index(e, key)].1
    } else if e.len() < CACHED_TENSORS {
        e.len() as usize
    } else {
        e.last().1
    }
}

/// The entries after a tensor was stored.
pub open spec fn kept(e: Entries, key: TensorKey) -> Entries {
    stored(e, CACHED_TENSORS as nat, key, slot_for(e, key))
}

/// A tensor to measure a kernel on: what a slot holds, seen in a shape, or a fresh one
/// that goes to the slot.
#[derive(Debug, PartialEq, Eq)]
pub struct Operand {
    /// The slot that holds its elements.
    pub slot: usize,
    /// What its elements are drawn from, where it is fresh.
    pub fresh: Option<KindRange>,
    /// Its shape and element type.
    pub info: TensorInfo,
}

/// What an [`Operand`] stands for.
#[verifier::ext_equal]
pub struct OperandSource {
    pub slot: usize,
    pub fresh: Option<KindRange>,
    pub info: TensorView,
}

impl View for Operand {
    type V = OperandSource;

    open spec fn view(&self) -> OperandSource {
        OperandSource { slot: self.slot, fresh: self.fresh, info: self.info@ }
    }
}

/// Where a tensor comes from: a kept one of its size and element type is used again.
pub open spec fn source(e: Entries, t: TensorView) -> OperandSource {
    OperandSource {
        slot: slot_for(e, tensor_key(t)),
        fresh: if has_key(e, tensor_key(t)) {
            None
        } else {
            Some(range_of(t.dtype))
        },
        info: t,
    }
}

/// The entries after a tensor was asked for.
pub open spec fn after_use(e: Entries, t: TensorView) -> Entries {
    if has_key(e, tensor_key(t)) {
        used(e, tensor_key(t))
    } else {
        kept(e, tensor_key(t))
    }
}

/// Whether some entries can be those of a cache: no key is there twice, and the entries
/// have as many slots as there are of them, the lowest ones.
pub open spec fn orderly(e: Entries) -> bool {
    &&& e.len() <= CACHED_TENSORS
    &&& forall|i: int, j: int|
        0 <= i < j < e.len() ==> (#[trigger] e[i]).0 != (#[trigger] e[j]).0 && e[i].1 != e[j].1
    &&& forall|i: int| 0 <= i < e.len() ==> (#[trigger] e[i]).1 < e.len()
}

proof fn lemma_used_orderly(e: Entries, key: TensorKey)
    requires
        orderly(e),
    ensures
        orderly(used(e, key)),
{
    if has_key(e, key) {
        let k = key_index(e, key);
        let n = used(e, key);
        assert forall|i: int, j: int| 0 <= i < j < n.len() implies (#[trigger] n[i]).0 != (
        #[trigger] n[j]).0 && n[i].1 != n[j].1 by {
            let a = if i == 0 {
                k
            } else if i - 1 < k {
                i - 1
            } else {
                i
            };
            let b = if j - 1 < k {
                j - 1
            } else {
                j
            };
            assert(n[i] == e[a] && n[j] == e[b]);
            assert(a != b);
            if a < b {
                assert(e[a].0 != e[b].0);
            } else {
                assert(e[b].0 != e[a].0);
            }
        }
        assert forall|i: int| 0 <= i < n.len() implies (#[trigger] n[i]).1 < n.len() by {
            let a = if i == 0 {
                k
            } else if i - 1 < k {
                i - 1
            } else {
                i
            };
            assert(n[i] == e[a]);
        }
    }
}

proof fn lemma_kept_orderly(e: Entries, key: TensorKey)
    requires
        orderly(e),
    ensures
        orderly(kept(e, key)),
        has_key(e, key) ==> kept(e, key) == used(e, key),
{
    let n = kept(e, key);
    if has_key(e, key) {
        lemma_used_orderly(e, key);
        assert(n =~= used(e, key));
    } else {
        assert forall|i: int, j: int| 0 <= i < j < n.len() implies (#[trigger] n[i]).0 != (
        #[trigger] n[j]).0 && n[i].1 != n[j].1 by {
            assert(n[j] == e[j - 1]);
            if i > 0 {
                assert(n[i] == e[i - 1]);
                assert(e[i - 1].0 != e[j - 1].0);
            } else if e.len() == CACHED_TENSORS {
                assert(e[j - 1].0 != e[e.len() - 1].0);
            }
        }
        assert forall|i: int| 0 <= i < n.len() implies (#[trigger] n[i]).1 < n.len() by {
            if i > 0 {
                assert(n[i] == e[i - 1]);
            } else if e.len() == CACHED_TENSORS {
                assert(e[e.len() - 1].1 < e.len());
            }
        }
    }
}

/// Asking for a tensor and storing one leave no key twice and no slot shared by two
/// tensors.
pub proof fn law_slots_apart(e: Entries, t: TensorView, key: TensorKey)
    requires
        orderly(e),
    ensures
        orderly(after_use(e, t)),
        orderly(kept(e, key)),
{
    lemma_used_orderly(e, tensor_key(t));
    lemma_kept_orderly(e, tensor_key(t));
    lemma_kept_orderly(e, key);
}

/// A tensor that was asked for or stored is found again, in the same slot, by whoever
/// asks next for one of its size and element type.
pub proof fn law_tensor_reused(e: Entries, t: TensorView, again: TensorView)
    requires
        orderly(e),
        tensor_key(again) == tensor_key(t),
    ensures
        source(after_use(e, t), again) == (OperandSource {
            slot: source(e, t).slot,
            fresh: None,
            info: again,
        }),
{
    let key = tensor_key(t);
    let n = after_use(e, t);
    law_slots_apart(e, t, key);
    assert(n[0].0 == key);
    assert(has_key(n, key));
    let k = key_index(n, key);
    if k > 0 {
        assert(n[0].0 != n[k].0);
    }
}

/// The tensors kept on the GPU.
pub struct TensorCache {
    inner: LruCache<TensorKey, usize>,
}

impl View for TensorCache {
    type V = Entries;

    closed spec fn view(&self) -> Entries {
        lru_entries(self.inner)
    }
}

impl TensorCache {
    /// Whether the entries are in order.
    pub closed spec fn well_formed(&self) -> bool {
        lru_limit(self.inner) == CACHED_TENSORS && orderly(lru_entries(self.inner))
    }

    /// The tensors are at most as many as are kept, and no two share a key or a slot.
    pub proof fn lemma_well_formed(&self)
        requires
            self.well_formed(),
        ensures
            orderly(self@),
    {
    }

    /// No tensors.
    pub fn new() -> (c: TensorCache)
        ensures
            c.well_formed(),
            c@ == Seq::<(TensorKey, usize)>::empty(),
    {
        TensorCache { inner: new_lru(CACHED_TENSORS) }
    }

    /// Stores a tensor under a key; returns its slot.
    fn store(&mut self, key: TensorKey) -> (slot: usize)
        requires
            old(self).well_formed(),
        ensures
            final(self).well_formed(),
            final(self)@ == kept(old(self)@, key),
            slot == slot_for(old(self)@, key),
    {
        let ghost before = self@;
        proof {
            lemma_kept_orderly(before, key);
            lemma_used_orderly(before, key);
        }
        let slot: usize = match lru_get(&mut self.inner, key) {
            Some(slot) => {
                let ghost now = self@;
                let _ = lru_put(&mut self.inner, key, slot);
                proof {
                    assert(now[0].0 == key);
                    assert(has_key(now, key));
                    if key_index(now, key) > 0 {
                        assert(now[0].0 != now[key_index(now, key)].0);
                    }
                    assert(self@ =~= now);
                }
                slot
            },
            None => {
                let n = lru_len(&self.inner);
                let slot = if n < CACHED_TENSORS {
                    n
                } else {
                    match lru_last(&self.inner) {
                        Some(last) => last.1,
                        None => 0,
                    }
                };
                let _ = lru_put(&mut self.inner, key, slot);
                slot
            },
        };
        slot
    }

    /// A tensor to measure a kernel on. A kept one of its size and element type is used
    /// again; a fresh one is kept.
    pub fn allocate(&mut self, info: &TensorInfo) -> (r: Operand)
        requires
            old(self).well_formed(),
            countable(info.shape@),
        ensures
            final(self).well_formed(),
            r@ == source(old(self)@, info@),
            final(self)@ == after_use(old(self)@, info@),
    {
        let key: TensorKey = (total_size(&info.shape), info.dtype.tag());
        proof {
            assert(info.shape@.take(info.shape@.len() as int) =~= info.shape@);
            lemma_used_orderly(self@, key);
        }
        match lru_get(&mut self.inner, key) {
            Some(slot) => Operand { slot, fresh: None, info: info.clone() },
            None => {
                let slot = self.store(key);
                Operand { slot, fresh: Some(kind_range(info.dtype)), info: info.clone() }
            },
        }
    }

    /// Keeps a tensor of some shape and element type, if it is on the first GPU; returns
    /// its slot.
    pub fn cache(&mut self, info: &TensorInfo, gpu: Option<usize>) -> (r: Option<usize>)
        requires
            old(self).well_formed(),
            countable(info.shape@),
        ensures
            final(self).well_formed(),
            gpu == Some(0usize) ==> {
                &&& r == Some(slot_for(old(self)@, tensor_key(info@)))
                &&& final(self)@ == kept(old(self)@, tensor_key(info@))
            },
            gpu != Some(0usize) ==> r is None && final(self)@ == old(self)@,
    {
        match gpu {
            Some(0) => {
                proof {
                    assert(info.shape@.take(info.shape@.len() as int) =~= info.shape@);
                }
                Some(self.store((total_size(&info.shape), info.dtype.tag())))
            },
            _ => None,
        }
    }
}

} // verus!
