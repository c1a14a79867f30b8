//! Times of memory copies and flash-attention kernels.

use crate::cuda_call::CudaMemcpyKind;
use crate::duration::Duration;
use crate::perf_db::FlashAttnKey;
use crate::sort::{comes_first, lemma_comes_first_new, lemma_comes_first_still};
use crate::table::Table;
use crate::torch_call::Kind;
use crate::torch_estimate::no_time;
use vstd::prelude::*;

verus! {

/// What a [`CudaEstimator`] knows.
#[verifier::ext_equal]
pub struct CudaTimes {
    /// The time of each copy that has one.
    pub memcpy: Map<(CudaMemcpyKind, usize), Duration>,
    /// The time of each flash-attention kernel that has one.
    pub flash_attn: Map<FlashAttnKey, Duration>,
    /// The name of the GPU on which times are measured. In replay there is none.
    pub gpu: Option<Seq<char>>,
    /// The copies without a recorded time that were asked for, each once.
    pub missing_memcpy: Seq<(CudaMemcpyKind, usize)>,
    /// The kernels without a recorded time that were asked for, each once.
    pub missing_flash: Seq<FlashAttnKey>,
}

/// The time given for a key, or nothing where it has to be measured.
pub open spec fn timed_answer<K>(
    times: Map<K, Duration>,
    replay: bool,
    key: K,
) -> Option<Duration> {
    if times.contains_key(key) {
        Some(times[key])
    } else if replay {
        Some(no_time())
    } else {
        None
    }
}

impl CudaTimes {
    /// Whether times come from recorded tables alone.
    pub open spec fn replay(self) -> bool {
        self.gpu is None
    }

    /// The time given for a copy, or nothing where it has to be measured.
    pub open spec fn memcpy_answer(self, kind: CudaMemcpyKind, size: usize) -> Option<Duration> {
        timed_answer(self.memcpy, self.replay(), (kind, size))
    }

    /// What is known after a copy was asked for: in replay a copy without a
    /// recorded time is noted and charged no time from then on.
    pub open spec fn memcpy_asked(self, kind: CudaMemcpyKind, size: usize) -> CudaTimes {
        if self.memcpy.contains_key((kind, size)) || !self.replay() {
            self
        } else {
            CudaTimes {
                memcpy: self.memcpy.insert((kind, size), no_time()),
                missing_memcpy: self.missing_memcpy.push((kind, size)),
                ..self
            }
        }
    }

    /// The time given for a kernel, or nothing where it has to be measured.
    pub open spec fn flash_answer(self, key: FlashAttnKey) -> Option<Duration> {
        timed_answer(self.flash_attn, self.replay(), key)
    }

    /// What is known after a kernel was asked for.
    pub open spec fn flash_asked(self, key: FlashAttnKey) -> CudaTimes {
        if self.flash_attn.contains_key(key) || !self.replay() {
            self
        } else {
            CudaTimes {
                flash_attn: self.flash_attn.insert(key, no_time()),
                missing_flash: self.missing_flash.push(key),
                ..self
            }
        }
    }

    /// Whether everything noted as missing was noted once and has a time by now.
    pub open spec fn noted_once(self) -> bool {
        &&& self.missing_memcpy.no_duplicates()
        &&& self.missing_flash.no_duplicates()
        &&& forall|i: int|
            0 <= i < self.missing_memcpy.len() ==> self.memcpy.contains_key(
                #[trigger] self.missing_memcpy[i],
            )
        &&& forall|i: int|
            0 <= i < self.missing_flash.len() ==> self.flash_attn.contains_key(
                #[trigger] self.missing_flash[i],
            )
    }
}

/// Gives the times of copies and kernels, from what was measured or recorded.
pub struct CudaEstimator {
    memcpy_cache: Table<(CudaMemcpyKind, usize), Duration>,
    flash_attn_cache: Table<FlashAttnKey, Duration>,
    gpu: Option<String>,
    missing_memcpy: Vec<(CudaMemcpyKind, usize)>,
    missing_flash: Vec<FlashAttnKey>,
}

impl View for CudaEstimator {
    type V = CudaTimes;

    closed spec fn view(&self) -> CudaTimes {
        CudaTimes {
            memcpy: self.memcpy_cache@,
            flash_attn: self.flash_attn_cache@,
            gpu: match self.gpu {
                Some(name) => Some(name@),
                None => None,
            },
            missing_memcpy: self.missing_memcpy@,
            missing_flash: self.missing_flash@,
        }
    }
}

impl CudaEstimator {
    /// An estimator that knows nothing yet and has everything measured on a GPU
    /// of the given name.
    pub fn new(gpu_name: String) -> (e: CudaEstimator)
        ensures
            e@ == (CudaTimes {
                memcpy: Map::empty(),
                flash_attn: Map::empty(),
                gpu: Some(gpu_name@),
                missing_memcpy: seq![],
                missing_flash: seq![],
            }),
    {
        CudaEstimator {
            memcpy_cache: Table::new(),
            flash_attn_cache: Table::new(),
            gpu: Some(gpu_name),
            missing_memcpy: Vec::new(),
            missing_flash: Vec::new(),
        }
    }

    /// An estimator that answers from recorded times alone.
    pub fn new_replay(
        memcpy_cache: Table<(CudaMemcpyKind, usize), Duration>,
        flash_attn_cache: Table<FlashAttnKey, Duration>,
    ) -> (e: CudaEstimator)
        ensures
            e@ == (CudaTimes {
                memcpy: memcpy_cache@,
                flash_attn: flash_attn_cache@,
                gpu: None,
                missing_memcpy: seq![],
                missing_flash: seq![],
            }),
    {
        CudaEstimator {
            memcpy_cache,
            flash_attn_cache,
            gpu: None,
            missing_memcpy: Vec::new(),
            missing_flash: Vec::new(),
        }
    }

    /// The copies asked for in replay that had no recorded time.
    pub fn missing_memcpy(&self) -> (l: &Vec<(CudaMemcpyKind, usize)>)
        ensures
            l@ == self@.missing_memcpy,
    {
        &self.missing_memcpy
    }

    /// The kernels asked for in replay that had no recorded time.
    pub fn missing_flash(&self) -> (l: &Vec<FlashAttnKey>)
        ensures
            l@ == self@.missing_flash,
    {
        &self.missing_flash
    }

    /// The times of copies.
    pub fn memcpy_cache(&self) -> (t: &Table<(CudaMemcpyKind, usize), Duration>)
        ensures
            t@ == self@.memcpy,
    {
        &self.memcpy_cache
    }

    /// The times of kernels.
    pub fn flash_attn_cache(&self) -> (t: &Table<FlashAttnKey, Duration>)
        ensures
            t@ == self@.flash_attn,
    {
        &self.flash_attn_cache
    }

    /// Takes over recorded times, which go before those already known.
    pub fn preload(
        &mut self,
        memcpy: Table<(CudaMemcpyKind, usize), Duration>,
        flash_attn: Table<FlashAttnKey, Duration>,
    )
        ensures
            final(self)@ == (CudaTimes {
                memcpy: old(self)@.memcpy.union_prefer_right(memcpy@),
                flash_attn: old(self)@.flash_attn.union_prefer_right(flash_attn@),
                ..old(self)@
            }),
    {
        self.memcpy_cache.extend(memcpy);
        self.flash_attn_cache.extend(flash_attn);
    }

    /// The name of the GPU on which times are measured. In replay it is empty.
    pub fn gpu_name(&self) -> (s: String)
        ensures
            s@ == match self@.gpu {
                Some(name) => name,
                None => seq![],
            },
    {
        match &self.gpu {
            Some(name) => name.clone(),
            None => String::new(),
        }
    }

    /// The time of a copy; nothing where it has to be measured. In replay a copy
    /// without a recorded time is noted once and charged no time.
    pub fn memcpy(&mut self, kind: CudaMemcpyKind, size: usize) -> (r: Option<Duration>)
        ensures
            r == old(self)@.memcpy_answer(kind, size),
            final(self)@ == old(self)@.memcpy_asked(kind, size),
    {
        if let Some(dur) = self.memcpy_cache.get(&(kind, size)) {
            return Some(*dur);
        }
        if self.gpu.is_none() {
            self.missing_memcpy.push((kind, size));
            self.memcpy_cache.insert((kind, size), Duration::from_nanos(0));
            return Some(Duration::from_nanos(0));
        }
        None
    }

    /// Whether the time of a copy is known or need not be.
    pub fn has_memcpy(&self, kind: CudaMemcpyKind, size: usize) -> (b: bool)
        ensures
            b == self@.memcpy_answer(kind, size) is Some,
    {
        self.gpu.is_none() || self.memcpy_cache.contains_key(&(kind, size))
    }

    /// Keeps the measured time of a copy.
    pub fn record_memcpy(&mut self, kind: CudaMemcpyKind, size: usize, duration: Duration)
        ensures
            final(self)@ == (CudaTimes {
                memcpy: old(self)@.memcpy.insert((kind, size), duration),
                ..old(self)@
            }),
    {
        self.memcpy_cache.insert((kind, size), duration);
    }

    /// The time of a kernel; nothing where it has to be measured. In replay a
    /// kernel without a recorded time is noted once and charged no time.
    pub fn flash_attn(
        &mut self,
        is_fwd: bool,
        is_bf16: bool,
        batch_size: i32,
        seqlen_q: i32,
        seqlen_k: i32,
        num_heads: i32,
        num_heads_k: i32,
        head_size: i32,
        window_size_left: i32,
        window_size_right: i32,
        is_causal: bool,
    ) -> (r: Option<Duration>)
        ensures
            ({
                let key = FlashAttnKey {
                    is_fwd,
                    is_bf16,
                    batch_size,
                    seqlen_q,
                    seqlen_k,
                    num_heads,
                    num_heads_k,
                    head_size,
                    window_size_left,
                    window_size_right,
                    is_causal,
                };
                &&& r == old(self)@.flash_answer(key)
                &&& final(self)@ == old(self)@.flash_asked(key)
            }),
    {
        let key = FlashAttnKey {
            is_fwd,
            is_bf16,
            batch_size,
            seqlen_q,
            seqlen_k,
            num_heads,
            num_heads_k,
            head_size,
            window_size_left,
            window_size_right,
            is_causal,
        };
        if let Some(dur) = self.flash_attn_cache.get(&key) {
            return Some(*dur);
        }
        if self.gpu.is_none() {
            self.flash_attn_cache.insert(key, Duration::from_nanos(0));
            self.missing_flash.push(key);
            return Some(Duration::from_nanos(0));
        }
        None
    }

    /// Whether the time of a kernel is known or need not be.
    pub fn has_flash_attn(&self, key: FlashAttnKey) -> (b: bool)
        ensures
            b == self@.flash_answer(key) is Some,
    {
        self.gpu.is_none() || self.flash_attn_cache.contains_key(&key)
    }

    /// Keeps the measured time of a kernel.
    pub fn record_flash_attn(&mut self, key: FlashAttnKey, duration: Duration)
        ensures
            final(self)@ == (CudaTimes {
                flash_attn: old(self)@.flash_attn.insert(key, duration),
                ..old(self)@
            }),
    {
        self.flash_attn_cache.insert(key, duration);
    }
}

/// In replay, what is asked for without a recorded time is noted once however
/// often it is asked for.
pub proof fn law_missing_noted_once(
    times: CudaTimes,
    kind: CudaMemcpyKind,
    size: usize,
    key: FlashAttnKey,
)
    requires
        times.noted_once(),
    ensures
        times.memcpy_asked(kind, size).noted_once(),
        times.flash_asked(key).noted_once(),
        times.memcpy_asked(kind, size).memcpy_asked(kind, size) == times.memcpy_asked(kind, size),
        times.flash_asked(key).flash_asked(key) == times.flash_asked(key),
{
    let m = times.memcpy_asked(kind, size);
    assert forall|i: int| 0 <= i < m.missing_memcpy.len() implies m.memcpy.contains_key(
        #[trigger] m.missing_memcpy[i],
    ) by {
        if i < times.missing_memcpy.len() {
            assert(times.memcpy.contains_key(times.missing_memcpy[i]));
        }
    }
    let f = times.flash_asked(key);
    assert forall|i: int| 0 <= i < f.missing_flash.len() implies f.flash_attn.contains_key(
        #[trigger] f.missing_flash[i],
    ) by {
        if i < times.missing_flash.len() {
            assert(times.flash_attn.contains_key(times.missing_flash[i]));
        }
    }
}

/// Something that a time is asked for.
#[verifier::ext_equal]
pub enum Asked {
    Copy(CudaMemcpyKind, usize),
    Kernel(FlashAttnKey),
}

impl CudaTimes {
    /// What is known after a time was asked for.
    pub open spec fn asked(self, what: Asked) -> CudaTimes {
        match what {
            Asked::Copy(kind, size) => self.memcpy_asked(kind, size),
            Asked::Kernel(key) => self.flash_asked(key),
        }
    }

    /// What is known after some times were asked for, one after the other.
    pub open spec fn asked_all(self, all: Seq<Asked>) -> CudaTimes
        decreases all.len(),
    {
        if all.len() == 0 {
            self
        } else {
            self.asked_all(all.drop_last()).asked(all.last())
        }
    }
}

proof fn lemma_pushed<A>(items: Seq<A>, last: A, x: A)
    ensures
        items.push(last).contains(x) <==> items.contains(x) || x == last,
{
    let more = items.push(last);
    if items.contains(x) {
        let i = choose|i: int| 0 <= i < items.len() && items[i] == x;
        assert(more[i] == x);
    }
    if x == last {
        assert(more[items.len() as int] == x);
    }
    if more.contains(x) && x != last {
        let i = choose|i: int| 0 <= i < more.len() && more[i] == x;
        assert(items[i] == x);
    }
}

/// What replay notes as missing is exactly what was asked for without a recorded time,
/// each copy and each kernel once.
pub proof fn law_missing_exact(times: CudaTimes, all: Seq<Asked>)
    requires
        times.replay(),
        times.missing_memcpy.len() == 0,
        times.missing_flash.len() == 0,
    ensures
        times.asked_all(all).replay(),
        times.asked_all(all).noted_once(),
        forall|kind: CudaMemcpyKind, size: usize| #[trigger]
            times.asked_all(all).missing_memcpy.contains((kind, size)) <==> all.contains(
                Asked::Copy(kind, size),
            ) && !times.memcpy.contains_key((kind, size)),
        forall|key: FlashAttnKey| #[trigger]
            times.asked_all(all).missing_flash.contains(key) <==> all.contains(Asked::Kernel(key))
                && !times.flash_attn.contains_key(key),
        forall|kind: CudaMemcpyKind, size: usize| #[trigger]
            times.asked_all(all).memcpy.contains_key((kind, size)) <==> times.memcpy.contains_key(
                (kind, size),
            ) || all.contains(Asked::Copy(kind, size)),
        forall|key: FlashAttnKey| #[trigger]
            times.asked_all(all).flash_attn.contains_key(key) <==> times.flash_attn.contains_key(
                key,
            ) || all.contains(Asked::Kernel(key)),
    decreases all.len(),
{
    if all.len() > 0 {
        let front = all.drop_last();
        let last = all.last();
        law_missing_exact(times, front);
        let before = times.asked_all(front);
        let after = times.asked_all(all);
        assert(front.push(last) =~= all);
        match last {
            Asked::Copy(kind, size) => law_missing_noted_once(before, kind, size, arbitrary()),
            Asked::Kernel(key) => law_missing_noted_once(before, arbitrary(), 0, key),
        }
        assert forall|kind: CudaMemcpyKind, size: usize| #[trigger]
            after.missing_memcpy.contains((kind, size)) <==> all.contains(Asked::Copy(kind, size))
                && !times.memcpy.contains_key((kind, size)) by {
            lemma_pushed(front, last, Asked::Copy(kind, size));
            assert(before.missing_memcpy.contains((kind, size)) <==> front.contains(
                Asked::Copy(kind, size),
            ) && !times.memcpy.contains_key((kind, size)));
            if let Asked::Copy(k, n) = last {
                assert(before.memcpy.contains_key((k, n)) <==> times.memcpy.contains_key((k, n))
                    || front.contains(Asked::Copy(k, n)));
                lemma_pushed(before.missing_memcpy, (k, n), (kind, size));
            }
        }
        assert forall|key: FlashAttnKey| #[trigger]
            after.missing_flash.contains(key) <==> all.contains(Asked::Kernel(key))
                && !times.flash_attn.contains_key(key) by {
            lemma_pushed(front, last, Asked::Kernel(key));
            assert(before.missing_flash.contains(key) <==> front.contains(Asked::Kernel(key))
                && !times.flash_attn.contains_key(key));
            if let Asked::Kernel(k) = last {
                assert(before.flash_attn.contains_key(k) <==> times.flash_attn.contains_key(k)
                    || front.contains(Asked::Kernel(k)));
                lemma_pushed(before.missing_flash, k, key);
            }
        }
        assert forall|kind: CudaMemcpyKind, size: usize| #[trigger]
            after.memcpy.contains_key((kind, size)) <==> times.memcpy.contains_key((kind, size))
                || all.contains(Asked::Copy(kind, size)) by {
            lemma_pushed(front, last, Asked::Copy(kind, size));
            assert(before.memcpy.contains_key((kind, size)) <==> times.memcpy.contains_key(
                (kind, size),
            ) || front.contains(Asked::Copy(kind, size)));
        }
        assert forall|key: FlashAttnKey| #[trigger]
            after.flash_attn.contains_key(key) <==> times.flash_attn.contains_key(key)
                || all.contains(Asked::Kernel(key)) by {
            lemma_pushed(front, last, Asked::Kernel(key));
            assert(before.flash_attn.contains_key(key) <==> times.flash_attn.contains_key(key)
                || front.contains(Asked::Kernel(key)));
        }
    }
}

/// What replay notes as missing stands in the order in which it was first asked for.
pub proof fn law_missing_in_order(times: CudaTimes, all: Seq<Asked>)
    requires
        times.replay(),
        times.missing_memcpy.len() == 0,
        times.missing_flash.len() == 0,
    ensures
        ({
            let copies = times.asked_all(all).missing_memcpy;
            forall|i: int, j: int|
                0 <= i < j < copies.len() ==> comes_first(
                    all,
                    Asked::Copy((#[trigger] copies[i]).0, copies[i].1),
                    Asked::Copy((#[trigger] copies[j]).0, copies[j].1),
                )
        }),
        ({
            let kernels = times.asked_all(all).missing_flash;
            forall|i: int, j: int|
                0 <= i < j < kernels.len() ==> comes_first(
                    all,
                    Asked::Kernel(#[trigger] kernels[i]),
                    Asked::Kernel(#[trigger] kernels[j]),
                )
        }),
    decreases all.len(),
{
    if all.len() > 0 {
        let front = all.drop_last();
        let last = all.last();
        let before = times.asked_all(front);
        let after = times.asked_all(all);
        law_missing_in_order(times, front);
        law_missing_exact(times, front);
        assert(front.push(last) =~= all);
        let copies = after.missing_memcpy;
        assert forall|i: int, j: int| 0 <= i < j < copies.len() implies comes_first(
            all,
            Asked::Copy((#[trigger] copies[i]).0, copies[i].1),
            Asked::Copy((#[trigger] copies[j]).0, copies[j].1),
        ) by {
            let x = Asked::Copy(copies[i].0, copies[i].1);
            let y = Asked::Copy(copies[j].0, copies[j].1);
            assert(copies[i] == before.missing_memcpy[i]);
            if j < before.missing_memcpy.len() {
                assert(copies[j] == before.missing_memcpy[j]);
                lemma_comes_first_still(front, last, x, y);
            } else {
                assert(before.missing_memcpy.contains((copies[i].0, copies[i].1)));
                assert(!before.memcpy.contains_key((copies[j].0, copies[j].1)));
                lemma_comes_first_new(front, x, y);
            }
        }
        let kernels = after.missing_flash;
        assert forall|i: int, j: int| 0 <= i < j < kernels.len() implies comes_first(
            all,
            Asked::Kernel(#[trigger] kernels[i]),
            Asked::Kernel(#[trigger] kernels[j]),
        ) by {
            let x = Asked::Kernel(kernels[i]);
            let y = Asked::Kernel(kernels[j]);
            assert(kernels[i] == before.missing_flash[i]);
            if j < before.missing_flash.len() {
                assert(kernels[j] == before.missing_flash[j]);
                lemma_comes_first_still(front, last, x, y);
            } else {
                assert(before.missing_flash.contains(kernels[i]));
                assert(!before.flash_attn.contains_key(kernels[j]));
                lemma_comes_first_new(front, x, y);
            }
        }
    }
}

/// Asking for one thing changes no answer.
pub proof fn law_answers_stable(
    times: CudaTimes,
    kind: CudaMemcpyKind,
    size: usize,
    key: FlashAttnKey,
    other_kind: CudaMemcpyKind,
    other_size: usize,
    other_key: FlashAttnKey,
)
    ensures
        times.memcpy_asked(kind, size).memcpy_answer(other_kind, other_size)
            == times.memcpy_answer(other_kind, other_size),
        times.memcpy_asked(kind, size).flash_answer(other_key) == times.flash_answer(other_key),
        times.flash_asked(key).flash_answer(other_key) == times.flash_answer(other_key),
        times.flash_asked(key).memcpy_answer(other_kind, other_size) == times.memcpy_answer(
            other_kind,
            other_size,
        ),
{
}

/// The memory that a side of a copy is in.
#[derive(Clone, Copy, Debug, PartialEq, Eq, Structural)]
pub enum Memory {
    Host,
    PinnedHost,
    Device,
}

/// The direction that a copy is asked for in.
#[derive(Clone, Copy, Debug, PartialEq, Eq, Structural)]
pub enum CopyDirection {
    HostToHost,
    HostToDevice,
    DeviceToHost,
    DeviceToDevice,
}

/// How a copy is measured.
#[derive(Clone, Copy, Debug, PartialEq, Eq, Structural)]
pub struct CopyPlan {
    /// The memory that it reads.
    pub from: Memory,
    /// The memory that it writes.
    pub to: Memory,
    /// The direction that it is asked for in.
    pub direction: CopyDirection,
}

/// How often a copy or a kernel is run before it is timed.
pub const COPY_WARMUPS: i32 = 1;

/// How a copy is measured: pinned memory is the host's as far as its direction goes.
pub open spec fn copy_plan(kind: CudaMemcpyKind) -> CopyPlan {
    match kind {
        CudaMemcpyKind::HostToHost => CopyPlan {
            from: Memory::Host,
            to: Memory::Host,
            direction: CopyDirection::HostToHost,
        },
        CudaMemcpyKind::HostToDevice => CopyPlan {
            from: Memory::Host,
            to: Memory::Device,
            direction: CopyDirection::HostToDevice,
        },
        CudaMemcpyKind::PinnedHostToDevice => CopyPlan {
            from: Memory::PinnedHost,
            to: Memory::Device,
            direction: CopyDirection::HostToDevice,
        },
        CudaMemcpyKind::DeviceToHost => CopyPlan {
            from: Memory::Device,
            to: Memory::Host,
            direction: CopyDirection::DeviceToHost,
        },
        CudaMemcpyKind::DeviceToPinnedHost => CopyPlan {
            from: Memory::Device,
            to: Memory::PinnedHost,
            direction: CopyDirection::DeviceToHost,
        },
        CudaMemcpyKind::DeviceToDevice => CopyPlan {
            from: Memory::Device,
            to: Memory::Device,
            direction: CopyDirection::DeviceToDevice,
        },
    }
}

fn direction(from: Memory, to: Memory) -> (d: CopyDirection)
    ensures
        d == match (from is Device, to is Device) {
            (false, false) => CopyDirection::HostToHost,
            (false, true) => CopyDirection::HostToDevice,
            (true, false) => CopyDirection::DeviceToHost,
            (true, true) => CopyDirection::DeviceToDevice,
        },
{
    match (from, to) {
        (Memory::Device, Memory::Device) => CopyDirection::DeviceToDevice,
        (Memory::Device, _) => CopyDirection::DeviceToHost,
        (_, Memory::Device) => CopyDirection::HostToDevice,
        (_, _) => CopyDirection::HostToHost,
    }
}

/// How a copy is measured.
pub fn replay_memcpy(kind: CudaMemcpyKind) -> (r: CopyPlan)
    ensures
        r == copy_plan(kind),
{
    let (from, to) = match kind {
        CudaMemcpyKind::HostToHost => (Memory::Host, Memory::Host),
        CudaMemcpyKind::HostToDevice => (Memory::Host, Memory::Device),
        CudaMemcpyKind::PinnedHostToDevice => (Memory::PinnedHost, Memory::Device),
        CudaMemcpyKind::DeviceToHost => (Memory::Device, Memory::Host),
        CudaMemcpyKind::DeviceToPinnedHost => (Memory::Device, Memory::PinnedHost),
        CudaMemcpyKind::DeviceToDevice => (Memory::Device, Memory::Device),
    };
    CopyPlan { from, to, direction: direction(from, to) }
}

/// The quotient of two numbers, rounded towards zero.
pub open spec fn quotient(a: int, m: int) -> int {
    if a >= 0 {
        a / m
    } else {
        -((-a) / m)
    }
}

/// `x` rounded to a multiple of `m`: upwards unless it is negative.
pub open spec fn rounded(x: int, m: int) -> int {
    quotient(x + m - 1, m) * m
}

proof fn lemma_quotient(a: int, m: int)
    requires
        0 <= a,
        0 < m,
    ensures
        0 <= a / m <= a,
        a - m < (a / m) * m <= a,
        ((a / m) * m) % m == 0,
        (-(a / m)) * m == -((a / m) * m),
{
    vstd::arithmetic::div_mod::lemma_fundamental_div_mod(a, m);
    assert(m * (a / m) == (a / m) * m) by (nonlinear_arith);
    vstd::arithmetic::div_mod::lemma_mod_bound(a, m);
    vstd::arithmetic::div_mod::lemma_mod_multiples_basic(a / m, m);
    vstd::arithmetic::div_mod::lemma_div_pos_is_pos(a, m);
    vstd::arithmetic::div_mod::lemma_div_is_ordered_by_denominator(a, 1, m);
    assert((-(a / m)) * m == -((a / m) * m)) by (nonlinear_arith);
}

/// Rounds `x` to a multiple of `m`: to the smallest one that is not below `x`,
/// unless `x` is negative.
pub fn round_multiple(x: i32, m: i32) -> (r: i32)
    requires
        m > 0,
        x + m - 1 <= i32::MAX,
    ensures
        r == rounded(x as int, m as int),
        x >= 0 ==> r % m == 0 && x <= r < x + m,
{
    let n = x + (m - 1);
    if n >= 0 {
        proof {
            lemma_quotient(n as int, m as int);
        }
        n / m * m
    } else {
        proof {
            lemma_quotient(-n as int, m as int);
        }
        let below: i64 = -(n as i64);
        (-(below / m as i64 * m as i64)) as i32
    }
}

/// A tensor to allocate for a measurement.
#[derive(Debug, PartialEq, Eq)]
pub struct OperandPlan {
    pub shape: Vec<i32>,
    pub dtype: Kind,
}

/// What an [`OperandPlan`] stands for.
#[verifier::ext_equal]
pub struct OperandView {
    pub shape: Seq<i32>,
    pub dtype: Kind,
}

impl View for OperandPlan {
    type V = OperandView;

    open spec fn view(&self) -> OperandView {
        OperandView { shape: self.shape@, dtype: self.dtype }
    }
}

/// The element type of the tensors of a kernel.
pub open spec fn flash_dtype(key: FlashAttnKey) -> Kind {
    if key.is_bf16 {
        Kind::BFloat16
    } else {
        Kind::Half
    }
}

/// A tensor of four dimensions.
pub open spec fn operand4(a: i32, b: i32, c: i32, d: i32, dtype: Kind) -> OperandView {
    OperandView { shape: seq![a, b, c, d], dtype }
}

/// The tensors that a kernel is measured on. Forward: queries, keys and values.
/// Backward: the gradient of the output, queries, keys, values, the output and the
/// logarithms of the sums. Where the kernel pads heads itself, they are given
/// padded to a multiple of 8.
pub open spec fn flash_operands(key: FlashAttnKey) -> Seq<OperandView> {
    let dtype = flash_dtype(key);
    let b = key.batch_size;
    let padded = rounded(key.head_size as int, 8) as i32;
    if key.is_fwd {
        seq![
            operand4(b, key.seqlen_q, key.num_heads, padded, dtype),
            operand4(b, key.seqlen_k, key.num_heads_k, padded, dtype),
            operand4(b, key.seqlen_k, key.num_heads_k, padded, dtype),
        ]
    } else {
        seq![
            operand4(b, key.seqlen_q, key.num_heads, padded, dtype),
            operand4(b, key.seqlen_q, key.num_heads, key.head_size, dtype),
            operand4(b, key.seqlen_k, key.num_heads_k, key.head_size, dtype),
            operand4(b, key.seqlen_k, key.num_heads_k, key.head_size, dtype),
            operand4(b, key.seqlen_q, key.num_heads, key.head_size, dtype),
            OperandView {
                shape: seq![b, key.num_heads, key.seqlen_q],
                dtype: Kind::Float,
            },
        ]
    }
}

fn plan4(a: i32, b: i32, c: i32, d: i32, dtype: Kind) -> (t: OperandPlan)
    ensures
        t@ == operand4(a, b, c, d, dtype),
{
    let mut shape: Vec<i32> = Vec::new();
    shape.push(a);
    shape.push(b);
    shape.push(c);
    shape.push(d);
    assert(shape@ =~= seq![a, b, c, d]);
    OperandPlan { shape, dtype }
}

/// The tensors that a kernel is measured on.
pub fn flash_attn_operands(key: &FlashAttnKey) -> (r: Vec<OperandPlan>)
    requires
        key.head_size <= i32::MAX - 7,
    ensures
        r@.map_values(|t: OperandPlan| t@) == flash_operands(*key),
{
    let dtype = if key.is_bf16 {
        Kind::BFloat16
    } else {
        Kind::Half
    };
    let b = key.batch_size;
    let d = key.head_size;
    let padded = round_multiple(key.head_size, 8);
    let mut r: Vec<OperandPlan> = Vec::new();
    if key.is_fwd {
        r.push(plan4(b, key.seqlen_q, key.num_heads, padded, dtype));
        r.push(plan4(b, key.seqlen_k, key.num_heads_k, padded, dtype));
        r.push(plan4(b, key.seqlen_k, key.num_heads_k, padded, dtype));
    } else {
        r.push(plan4(b, key.seqlen_q, key.num_heads, padded, dtype));
        r.push(plan4(b, key.seqlen_q, key.num_heads, d, dtype));
        r.push(plan4(b, key.seqlen_k, key.num_heads_k, d, dtype));
        r.push(plan4(b, key.seqlen_k, key.num_heads_k, d, dtype));
        r.push(plan4(b, key.seqlen_q, key.num_heads, d, dtype));
        let mut shape: Vec<i32> = Vec::new();
        shape.push(b);
        shape.push(key.num_heads);
        shape.push(key.seqlen_q);
        assert(shape@ =~= seq![b, key.num_heads, key.seqlen_q]);
        r.push(OperandPlan { shape, dtype: Kind::Float });
    }
    assert(r@.map_values(|t: OperandPlan| t@) =~= flash_operands(*key));
    r
}

} // verus!
