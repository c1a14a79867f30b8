//! Recording times to a database, and replaying them.

use crate::cuda_call::CudaMemcpyKind;
use crate::cuda_estimate::{CudaEstimator, CudaTimes};
use crate::duration::Duration;
use crate::perf_db::{DbView, FlashAttnKey, PerfDb};
use crate::table::{MapKey, Table};
use crate::text::same_text;
use crate::torch_call::{CallView, TorchCallInfo};
use crate::torch_estimate::{no_time, TorchEstimator, TorchTimes};
use vstd::prelude::*;

verus! {

/// A value that can be had twice.
pub trait Copied: View + Sized {
    /// The same value again.
    fn copied(&self) -> (r: Self)
        ensures
            r@ == self@,
    ;
}

impl Copied for Duration {
    fn copied(&self) -> (r: Self) {
        *self
    }
}

impl Copied for Vec<Duration> {
    fn copied(&self) -> (r: Self) {
        let r = self.clone();
        assert(r@ =~= self@);
        r
    }
}

impl Copied for TorchCallInfo {
    fn copied(&self) -> (r: Self) {
        self.clone()
    }
}

impl Copied for u64 {
    fn copied(&self) -> (r: Self) {
        *self
    }
}

impl Copied for (CudaMemcpyKind, usize) {
    fn copied(&self) -> (r: Self) {
        *self
    }
}

impl Copied for FlashAttnKey {
    fn copied(&self) -> (r: Self) {
        *self
    }
}

fn copied_table<K: MapKey + Copied, V: Copied>(t: &Table<K, V>) -> (r: Table<K, V>)
    ensures
        r@ == t@,
        r.distinct(),
{
    let ghost keys = t.keys();
    let mut r: Table<K, V> = Table::new();
    proof {
        t.lemma_keys();
    }
    let mut i: usize = 0;
    while i < t.len()
        invariant
            i <= keys.len(),
            keys == t.keys(),
            r.distinct(),
            forall|k: K::V| #[trigger] t@.contains_key(k) <==> keys.contains(k),
            forall|k: K::V| #[trigger]
                r@.contains_key(k) ==> t@.contains_key(k) && r@[k] == t@[k],
            forall|j: int| 0 <= j < i ==> r@.contains_key(#[trigger] keys[j]),
        decreases keys.len() - i,
    {
        let k = t.key_at(i);
        if let Some(v) = t.get(k) {
            r.insert(k.copied(), v.copied());
        }
        i += 1;
    }
    assert(r@ =~= t@) by {
        assert forall|k: K::V| t@.contains_key(k) implies r@.contains_key(k) by {
            assert(keys.contains(k));
            let j = choose|j: int| 0 <= j < keys.len() && keys[j] == k;
            assert(r@.contains_key(keys[j]));
        }
    }
    r
}

/// The times of what was noted as missing: none.
pub open spec fn unknown_times<K>(missing: Seq<K>) -> Map<K, Duration> {
    Map::new(|k: K| missing.contains(k), |k: K| no_time())
}

proof fn lemma_unknown_push<K>(missing: Seq<K>, n: int)
    requires
        0 <= n < missing.len(),
    ensures
        unknown_times(missing.take(n + 1)) == unknown_times(missing.take(n)).insert(
            missing[n],
            no_time(),
        ),
{
    let a = missing.take(n + 1);
    let b = missing.take(n);
    assert(a =~= b.push(missing[n]));
    assert forall|k: K| a.contains(k) <==> b.contains(k) || k == missing[n] by {
        if b.contains(k) {
            let i = choose|i: int| 0 <= i < b.len() && b[i] == k;
            assert(a[i] == k);
        }
        if k == missing[n] {
            assert(a[n] == k);
        }
        if a.contains(k) && k != missing[n] {
            let i = choose|i: int| 0 <= i < a.len() && a[i] == k;
            assert(b[i] == k);
        }
    }
    assert(unknown_times(a) =~= unknown_times(b).insert(missing[n], no_time()));
}

fn unknown_table<K: MapKey + Copied>(missing: &Vec<K>) -> (r: Table<K, Duration>)
    ensures
        r@ == unknown_times(missing@.map_values(|k: K| k@)),
        r.distinct(),
{
    let ghost keys = missing@.map_values(|k: K| k@);
    let mut r: Table<K, Duration> = Table::new();
    assert(r@ =~= unknown_times(keys.take(0)));
    let mut i: usize = 0;
    while i < missing.len()
        invariant
            i <= missing@.len(),
            keys == missing@.map_values(|k: K| k@),
            r.distinct(),
            r@ == unknown_times(keys.take(i as int)),
        decreases missing@.len() - i,
    {
        proof {
            lemma_unknown_push(keys, i as int);
        }
        r.insert(missing[i].copied(), Duration::from_nanos(0));
        i += 1;
    }
    assert(keys.take(keys.len() as int) =~= keys);
    r
}

/// The database of what is known.
pub open spec fn known_times(cuda: CudaTimes, torch: TorchTimes) -> DbView {
    DbView {
        gpu_name: match cuda.gpu {
            Some(name) => name,
            None => seq![],
        },
        compute: torch.compute,
        sequence: torch.sequence,
        memcpy: cuda.memcpy,
        flash_attn: cuda.flash_attn,
    }
}

/// The database of what is known, to be written.
pub fn recorded(cuda: &CudaEstimator, torch: &TorchEstimator) -> (db: PerfDb)
    ensures
        db@ == known_times(cuda@, torch@),
        db.distinct(),
{
    PerfDb {
        gpu_name: cuda.gpu_name(),
        compute: copied_table(torch.compute_cache()),
        sequence: copied_table(torch.sequence_cache()),
        memcpy: copied_table(cuda.memcpy_cache()),
        flash_attn: copied_table(cuda.flash_attn_cache()),
    }
}

/// The database of what was asked for in replay without a recorded time.
pub open spec fn missing_times(cuda: CudaTimes, torch: TorchTimes, gpu: Seq<char>) -> DbView {
    DbView {
        gpu_name: gpu,
        compute: unknown_times(torch.missing),
        sequence: Map::empty(),
        memcpy: unknown_times(cuda.missing_memcpy),
        flash_attn: unknown_times(cuda.missing_flash),
    }
}

/// The database of what was asked for in replay without a recorded time, to be
/// measured on a GPU of the given name. There is none where everything was recorded.
pub fn missing_db(cuda: &CudaEstimator, torch: &TorchEstimator, gpu_name: String) -> (r: Option<
    PerfDb,
>)
    ensures
        match r {
            Some(db) => db@ == missing_times(cuda@, torch@, gpu_name@) && db.distinct() && (
            torch@.missing.len() > 0 || cuda@.missing_memcpy.len() > 0
                || cuda@.missing_flash.len() > 0),
            None => torch@.missing.len() == 0 && cuda@.missing_memcpy.len() == 0
                && cuda@.missing_flash.len() == 0,
        },
{
    let calls = torch.missing();
    let copies = cuda.missing_memcpy();
    let kernels = cuda.missing_flash();
    assert(calls@.len() == torch@.missing.len());
    if calls.len() == 0 && copies.len() == 0 && kernels.len() == 0 {
        return None;
    }
    assert(copies@.map_values(|k: (CudaMemcpyKind, usize)| k@) =~= copies@);
    assert(kernels@.map_values(|k: FlashAttnKey| k@) =~= kernels@);
    Some(
        PerfDb {
            gpu_name,
            compute: unknown_table(calls),
            sequence: Table::new(),
            memcpy: unknown_table(copies),
            flash_attn: unknown_table(kernels),
        },
    )
}

/// Estimators that answer from a database alone.
pub fn replayed(db: PerfDb) -> (r: (CudaEstimator, TorchEstimator))
    ensures
        r.0@ == (CudaTimes {
            memcpy: db@.memcpy,
            flash_attn: db@.flash_attn,
            gpu: None,
            missing_memcpy: seq![],
            missing_flash: seq![],
        }),
        r.1@ == (TorchTimes {
            compute: db@.compute,
            sequence: db@.sequence,
            replay: true,
            missing: seq![],
        }),
{
    (
        CudaEstimator::new_replay(db.memcpy, db.flash_attn),
        TorchEstimator::new_replay(db.compute, db.sequence),
    )
}

/// Whether times measured on a GPU can be recorded to a database: not where it holds
/// those of another GPU.
pub open spec fn same_gpu(db: DbView, gpu: Seq<char>) -> bool {
    db.gpu_name.len() == 0 || db.gpu_name == gpu
}

/// What is known of copies and kernels after a database was taken over.
pub open spec fn cuda_with(cuda: CudaTimes, db: DbView) -> CudaTimes {
    CudaTimes {
        memcpy: cuda.memcpy.union_prefer_right(db.memcpy),
        flash_attn: cuda.flash_attn.union_prefer_right(db.flash_attn),
        ..cuda
    }
}

/// What is known of operators after a database was taken over.
pub open spec fn torch_with(torch: TorchTimes, db: DbView) -> TorchTimes {
    TorchTimes {
        compute: torch.compute.union_prefer_right(db.compute),
        sequence: torch.sequence.union_prefer_right(db.sequence),
        ..torch
    }
}

/// Takes over a database that is then recorded to: what it holds is not measured again.
/// One that holds the times of another GPU is refused.
pub fn start_recording(db: PerfDb, cuda: &mut CudaEstimator, torch: &mut TorchEstimator) -> (ok:
    bool)
    requires
        old(cuda)@.gpu is Some,
    ensures
        ok == same_gpu(db@, old(cuda)@.gpu->0),
        ok ==> final(cuda)@ == cuda_with(old(cuda)@, db@) && final(torch)@ == torch_with(
            old(torch)@,
            db@,
        ),
        !ok ==> final(cuda)@ == old(cuda)@ && final(torch)@ == old(torch)@,
{
    let gpu = cuda.gpu_name();
    let unnamed = same_text(db.gpu_name.as_str(), "");
    proof {
        reveal_strlit("");
        assert(db.gpu_name@.len() == 0 ==> db.gpu_name@ =~= ""@);
    }
    if !unnamed && !same_text(db.gpu_name.as_str(), gpu.as_str()) {
        return false;
    }
    cuda.preload(db.memcpy, db.flash_attn);
    torch.preload(db.compute, db.sequence);
    true
}

/// In replay everything that a database holds gets its recorded time, and a database
/// that is replayed and recorded again holds the same times.
pub proof fn law_replay_answers(
    db: DbView,
    call: CallView,
    kind: CudaMemcpyKind,
    size: usize,
    key: FlashAttnKey,
)
    ensures
        ({
            let cuda = CudaTimes {
                memcpy: db.memcpy,
                flash_attn: db.flash_attn,
                gpu: None,
                missing_memcpy: seq![],
                missing_flash: seq![],
            };
            let torch = TorchTimes {
                compute: db.compute,
                sequence: db.sequence,
                replay: true,
                missing: seq![],
            };
            &&& torch.answer(call) == Some(
                if db.compute.contains_key(call) {
                    db.compute[call]
                } else {
                    no_time()
                },
            )
            &&& cuda.memcpy_answer(kind, size) == Some(
                if db.memcpy.contains_key((kind, size)) {
                    db.memcpy[(kind, size)]
                } else {
                    no_time()
                },
            )
            &&& cuda.flash_answer(key) == Some(
                if db.flash_attn.contains_key(key) {
                    db.flash_attn[key]
                } else {
                    no_time()
                },
            )
            &&& known_times(cuda, torch) == (DbView { gpu_name: seq![], ..db })
        }),
{
}

/// What a database holds that is recorded to is not measured again, and stays as it is
/// recorded there.
pub proof fn law_recorded_times_kept(
    cuda: CudaTimes,
    torch: TorchTimes,
    db: DbView,
    call: CallView,
    kind: CudaMemcpyKind,
    size: usize,
    key: FlashAttnKey,
)
    ensures
        db.compute.contains_key(call) ==> torch_with(torch, db).answer(call) == Some(
            db.compute[call],
        ),
        db.memcpy.contains_key((kind, size)) ==> cuda_with(cuda, db).memcpy_answer(kind, size)
            == Some(db.memcpy[(kind, size)]),
        db.flash_attn.contains_key(key) ==> cuda_with(cuda, db).flash_answer(key) == Some(
            db.flash_attn[key],
        ),
        db.compute.submap_of(known_times(cuda_with(cuda, db), torch_with(torch, db)).compute),
        db.sequence.submap_of(known_times(cuda_with(cuda, db), torch_with(torch, db)).sequence),
        db.memcpy.submap_of(known_times(cuda_with(cuda, db), torch_with(torch, db)).memcpy),
        db.flash_attn.submap_of(
            known_times(cuda_with(cuda, db), torch_with(torch, db)).flash_attn,
        ),
{
}

/// The database of what is missing holds what was noted as missing, and nothing else:
/// asking in replay adds what is asked for, unless it has a time already.
pub proof fn law_missing_is_unrecorded(torch: TorchTimes, call: CallView, asked: CallView)
    ensures
        unknown_times(torch.missing).contains_key(call) <==> torch.missing.contains(call),
        torch.compute.contains_key(asked) ==> torch.asked(asked).missing == torch.missing,
        torch.replay && !torch.compute.contains_key(asked) ==> unknown_times(
            torch.asked(asked).missing,
        ) == unknown_times(torch.missing).insert(asked, no_time()),
{
    if torch.replay && !torch.compute.contains_key(asked) {
        let n = torch.missing.len() as int;
        let m = torch.asked(asked).missing;
        lemma_unknown_push(m, n);
        assert(m.take(n) =~= torch.missing);
        assert(m.take(n + 1) =~= m);
    }
}

} // verus!
