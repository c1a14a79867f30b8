//! Execution times of PyTorch operators.

use crate::duration::Duration;
use crate::sort::{comes_first, lemma_comes_first_new, lemma_comes_first_still};
use crate::table::Table;
use crate::torch_call::{
    call_infos, hash_infos, hash_sequence, info_views, sequence_hash, CallView, TorchCall,
    TorchCallInfo,
};
use vstd::prelude::*;

verus! {

/// What a [`TorchEstimator`] knows.
#[verifier::ext_equal]
pub struct TorchTimes {
    /// The time of each operator call that has one.
    pub compute: Map<CallView, Duration>,
    /// The times of the calls of each run of calls, by its hash.
    pub sequence: Map<u64, Seq<Duration>>,
    /// Whether times come from recorded tables alone.
    pub replay: bool,
    /// The calls without a recorded time that were asked for, each once.
    pub missing: Seq<CallView>,
}

/// The span charged to a call that has no recorded time.
pub open spec fn no_time() -> Duration {
    Duration { nanos: 0 }
}

impl TorchTimes {
    /// The time given for a call, or nothing where it has to be measured.
    pub open spec fn answer(self, call: CallView) -> Option<Duration> {
        if self.compute.contains_key(call) {
            Some(self.compute[call])
        } else if self.replay {
            Some(no_time())
        } else {
            None
        }
    }

    /// What is known after a call was asked for: in replay a call without a
    /// recorded time is noted and charged no time from then on.
    pub open spec fn asked(self, call: CallView) -> TorchTimes {
        if self.compute.contains_key(call) || !self.replay {
            self
        } else {
            TorchTimes {
                compute: self.compute.insert(call, no_time()),
                missing: self.missing.push(call),
                ..self
            }
        }
    }

    /// What is known after some calls were asked for, one after the other.
    pub open spec fn asked_all(self, calls: Seq<CallView>) -> TorchTimes
        decreases calls.len(),
    {
        if calls.len() == 0 {
            self
        } else {
            self.asked_all(calls.drop_last()).asked(calls.last())
        }
    }

    /// The times given in replay for some calls that are asked for one after
    /// the other.
    pub open spec fn replayed(self, calls: Seq<CallView>) -> Seq<Duration> {
        Seq::new(
            calls.len(),
            |i: int|
                if self.compute.contains_key(calls[i]) {
                    self.compute[calls[i]]
                } else {
                    no_time()
                },
        )
    }

    /// Whether everything noted as missing was noted once and has a time by now.
    pub open spec fn noted_once(self) -> bool {
        &&& self.missing.no_duplicates()
        &&& forall|i: int|
            0 <= i < self.missing.len() ==> self.compute.contains_key(#[trigger] self.missing[i])
    }

    /// The times given for a run of calls, or nothing where it has to be measured.
    pub open spec fn sequence_answer(self, calls: Seq<CallView>) -> Option<Seq<Duration>> {
        if self.sequence.contains_key(sequence_hash(calls)) {
            Some(self.sequence[sequence_hash(calls)])
        } else if self.replay {
            Some(self.replayed(calls))
        } else {
            None
        }
    }

    /// What is known after a run of calls was asked for.
    pub open spec fn sequence_asked(self, calls: Seq<CallView>) -> TorchTimes {
        if self.sequence.contains_key(sequence_hash(calls)) || !self.replay {
            self
        } else {
            self.asked_all(calls)
        }
    }
}

/// Asking for calls in replay changes no answer.
pub proof fn lemma_asked_all(t: TorchTimes, calls: Seq<CallView>, c: CallView)
    requires
        t.replay,
    ensures
        t.asked_all(calls).replay,
        t.asked_all(calls).answer(c) == t.answer(c),
        t.asked_all(calls).sequence == t.sequence,
    decreases calls.len(),
{
    if calls.len() > 0 {
        lemma_asked_all(t, calls.drop_last(), c);
    }
}

/// Gives the execution times of operators, from what was measured or recorded.
pub struct TorchEstimator {
    compute_cache: Table<TorchCallInfo, Duration>,
    sequence_cache: Table<u64, Vec<Duration>>,
    replay: bool,
    missing: Vec<TorchCallInfo>,
}

impl View for TorchEstimator {
    type V = TorchTimes;

    closed spec fn view(&self) -> TorchTimes {
        TorchTimes {
            compute: self.compute_cache@,
            sequence: self.sequence_cache@,
            replay: self.replay,
            missing: self.missing@.map_values(|c: TorchCallInfo| c@),
        }
    }
}

impl TorchEstimator {
    /// An estimator that knows nothing yet and has every call measured.
    pub fn new() -> (e: TorchEstimator)
        ensures
            e@ == (TorchTimes {
                compute: Map::empty(),
                sequence: Map::empty(),
                replay: false,
                missing: Seq::empty(),
            }),
    {
        let e = TorchEstimator {
            compute_cache: Table::new(),
            sequence_cache: Table::new(),
            replay: false,
            missing: Vec::new(),
        };
        assert(e@.missing =~= Seq::empty());
        e
    }

    /// An estimator that answers from recorded times alone.
    pub fn new_replay(
        compute_cache: Table<TorchCallInfo, Duration>,
        sequence_cache: Table<u64, Vec<Duration>>,
    ) -> (e: TorchEstimator)
        ensures
            e@ == (TorchTimes {
                compute: compute_cache@,
                sequence: sequence_cache@,
                replay: true,
                missing: Seq::empty(),
            }),
    {
        let e = TorchEstimator { compute_cache, sequence_cache, replay: true, missing: Vec::new() };
        assert(e@.missing =~= Seq::empty());
        e
    }

    /// The times of operator calls.
    pub fn compute_cache(&self) -> (t: &Table<TorchCallInfo, Duration>)
        ensures
            t@ == self@.compute,
    {
        &self.compute_cache
    }

    /// The calls asked for in replay that had no recorded time.
    pub fn missing(&self) -> (l: &Vec<TorchCallInfo>)
        ensures
            l@.map_values(|c: TorchCallInfo| c@) == self@.missing,
    {
        &self.missing
    }

    /// The times of runs of calls, by their hashes.
    pub fn sequence_cache(&self) -> (t: &Table<u64, Vec<Duration>>)
        ensures
            t@ == self@.sequence,
    {
        &self.sequence_cache
    }

    /// Takes over recorded times, which go before those already known.
    pub fn preload(
        &mut self,
        compute: Table<TorchCallInfo, Duration>,
        sequence: Table<u64, Vec<Duration>>,
    )
        ensures
            final(self)@ == (TorchTimes {
                compute: old(self)@.compute.union_prefer_right(compute@),
                sequence: old(self)@.sequence.union_prefer_right(sequence@),
                ..old(self)@
            }),
    {
        self.compute_cache.extend(compute);
        self.sequence_cache.extend(sequence);
    }

    /// The time of a call; nothing where it has to be measured. In replay a call
    /// without a recorded time is noted once and charged no time.
    pub fn estimate(&mut self, call: &TorchCallInfo) -> (r: Option<Duration>)
        ensures
            r == old(self)@.answer(call@),
            final(self)@ == old(self)@.asked(call@),
    {
        if let Some(value) = self.compute_cache.get(call) {
            return Some(*value);
        }
        if self.replay {
            let ghost before = self@;
            self.missing.push(call.clone());
            self.compute_cache.insert(call.clone(), Duration::from_nanos(0));
            assert(self@.missing =~= before.missing.push(call@));
            return Some(Duration::from_nanos(0));
        }
        None
    }

    /// Keeps the measured time of a call.
    pub fn record(&mut self, call: &TorchCallInfo, duration: Duration)
        ensures
            final(self)@ == (TorchTimes {
                compute: old(self)@.compute.insert(call@, duration),
                ..old(self)@
            }),
    {
        self.compute_cache.insert(call.clone(), duration);
    }

    /// The times of the calls of a run; nothing where the run has to be measured.
    /// In replay a run without recorded times is answered call by call.
    pub fn estimate_sequence(&mut self, calls: &Vec<TorchCall>) -> (r: Option<Vec<Duration>>)
        ensures
            match r {
                Some(d) => old(self)@.sequence_answer(call_infos(calls@)) == Some(d@),
                None => old(self)@.sequence_answer(call_infos(calls@)) is None,
            },
            final(self)@ == old(self)@.sequence_asked(call_infos(calls@)),
    {
        let hash = hash_sequence(calls);
        if let Some(value) = self.sequence_cache.get(&hash) {
            let d = value.clone();
            assert(d@ =~= value@);
            return Some(d);
        }
        if !self.replay {
            return None;
        }
        let ghost before = self@;
        let ghost infos = call_infos(calls@);
        let mut durs: Vec<Duration> = Vec::new();
        let mut i: usize = 0;
        assert(infos.take(0) =~= Seq::empty());
        while i < calls.len()
            invariant
                i <= calls@.len(),
                infos == call_infos(calls@),
                before.replay,
                self@ == before.asked_all(infos.take(i as int)),
                durs@ == before.replayed(infos).take(i as int),
            decreases calls@.len() - i,
        {
            proof {
                lemma_asked_all(before, infos.take(i as int), infos[i as int]);
                assert(infos.take(i + 1).drop_last() =~= infos.take(i as int));
            }
            if let Some(d) = self.estimate(&calls[i].info) {
                durs.push(d);
            }
            assert(durs@ =~= before.replayed(infos).take(i + 1));
            i += 1;
        }
        assert(infos.take(infos.len() as int) =~= infos);
        assert(durs@ =~= before.replayed(infos));
        Some(durs)
    }

    /// How many times are known for the run of calls with a hash, if any.
    pub fn sequence_len(&self, hash: u64) -> (r: Option<usize>)
        ensures
            match r {
                Some(n) => self@.sequence.contains_key(hash) && n == self@.sequence[hash].len(),
                None => !self@.sequence.contains_key(hash),
            },
    {
        match self.sequence_cache.get(&hash) {
            Some(d) => Some(d.len()),
            None => None,
        }
    }

    /// Whether times come from recorded tables alone.
    pub fn is_replay(&self) -> (b: bool)
        ensures
            b == self@.replay,
    {
        self.replay
    }

    /// Whether the time of a call is known or need not be.
    pub fn has_time(&self, call: &TorchCallInfo) -> (b: bool)
        ensures
            b == self@.answer(call@) is Some,
    {
        self.replay || self.compute_cache.contains_key(call)
    }

    /// Keeps the measured times of the calls of a run.
    pub fn record_sequence(&mut self, calls: &Vec<TorchCallInfo>, durations: Vec<Duration>)
        ensures
            final(self)@ == (TorchTimes {
                sequence: old(self)@.sequence.insert(
                    sequence_hash(info_views(calls@)),
                    durations@,
                ),
                ..old(self)@
            }),
    {
        self.sequence_cache.insert(hash_infos(calls), durations);
    }
}

/// In replay, what is asked for without a recorded time is noted once however
/// often it is asked for, and asking for one call changes no answer.
pub proof fn law_missing_calls_noted_once(times: TorchTimes, call: CallView, other: CallView)
    requires
        times.noted_once(),
    ensures
        times.asked(call).noted_once(),
        times.asked(call).asked(call) == times.asked(call),
        times.asked(call).answer(other) == times.answer(other),
{
    let after = times.asked(call);
    assert forall|i: int| 0 <= i < after.missing.len() implies after.compute.contains_key(
        #[trigger] after.missing[i],
    ) by {
        if i < times.missing.len() {
            assert(times.compute.contains_key(times.missing[i]));
        }
    }
}

/// What replay notes as missing is exactly what was asked for without a recorded time,
/// each call once.
pub proof fn law_missing_calls_exact(times: TorchTimes, calls: Seq<CallView>)
    requires
        times.replay,
        times.missing.len() == 0,
    ensures
        times.asked_all(calls).noted_once(),
        forall|c: CallView| #[trigger]
            times.asked_all(calls).missing.contains(c) <==> calls.contains(c)
                && !times.compute.contains_key(c),
        forall|c: CallView| #[trigger]
            times.asked_all(calls).compute.contains_key(c) <==> times.compute.contains_key(c)
                || calls.contains(c),
    decreases calls.len(),
{
    if calls.len() > 0 {
        let front = calls.drop_last();
        let last = calls.last();
        law_missing_calls_exact(times, front);
        let before = times.asked_all(front);
        let after = times.asked_all(calls);
        lemma_asked_all(times, front, last);
        law_missing_calls_noted_once(before, last, last);
        assert forall|c: CallView| #[trigger] calls.contains(c) <==> front.contains(c) || c
            == last by {
            if front.contains(c) {
                let i = choose|i: int| 0 <= i < front.len() && front[i] == c;
                assert(calls[i] == c);
            }
            if c == last {
                assert(calls[calls.len() - 1] == c);
            }
            if calls.contains(c) && c != last {
                let i = choose|i: int| 0 <= i < calls.len() && calls[i] == c;
                assert(front[i] == c);
            }
        }
        assert forall|c: CallView| #[trigger] after.compute.contains_key(c)
            <==> times.compute.contains_key(c) || calls.contains(c) by {
            assert(before.compute.contains_key(c) <==> times.compute.contains_key(c)
                || front.contains(c));
            assert(calls.contains(c) <==> front.contains(c) || c == last);
        }
        assert forall|c: CallView| #[trigger] after.missing.contains(c) <==> calls.contains(c)
            && !times.compute.contains_key(c) by {
            assert(before.missing.contains(c) <==> front.contains(c)
                && !times.compute.contains_key(c));
            assert(calls.contains(c) <==> front.contains(c) || c == last);
            assert(before.compute.contains_key(last) <==> times.compute.contains_key(last)
                || front.contains(last));
            if !before.compute.contains_key(last) {
                let n = before.missing.len() as int;
                assert(after.missing =~= before.missing.push(last));
                assert(after.missing[n] == last);
                if before.missing.contains(c) {
                    let i = choose|i: int| 0 <= i < n && before.missing[i] == c;
                    assert(after.missing[i] == c);
                }
                if after.missing.contains(c) && c != last {
                    let i = choose|i: int| 0 <= i < n + 1 && after.missing[i] == c;
                    assert(before.missing[i] == c);
                }
            }
        }
    }
}

/// What replay notes as missing stands in the order in which it was first asked for.
pub proof fn law_missing_calls_in_order(times: TorchTimes, calls: Seq<CallView>)
    requires
        times.replay,
        times.missing.len() == 0,
    ensures
        ({
            let missing = times.asked_all(calls).missing;
            forall|i: int, j: int|
                0 <= i < j < missing.len() ==> comes_first(
                    calls,
                    #[trigger] missing[i],
                    #[trigger] missing[j],
                )
        }),
    decreases calls.len(),
{
    if calls.len() > 0 {
        let front = calls.drop_last();
        let last = calls.last();
        let before = times.asked_all(front);
        let missing = times.asked_all(calls).missing;
        law_missing_calls_in_order(times, front);
        law_missing_calls_exact(times, front);
        assert(front.push(last) =~= calls);
        assert forall|i: int, j: int| 0 <= i < j < missing.len() implies comes_first(
            calls,
            #[trigger] missing[i],
            #[trigger] missing[j],
        ) by {
            assert(missing[i] == before.missing[i]);
            if j < before.missing.len() {
                assert(missing[j] == before.missing[j]);
                lemma_comes_first_still(front, last, missing[i], missing[j]);
            } else {
                assert(before.missing.contains(missing[i]));
                assert(!before.compute.contains_key(missing[j]));
                lemma_comes_first_new(front, missing[i], missing[j]);
            }
        }
    }
}

} // verus!
