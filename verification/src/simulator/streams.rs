//! CUDA streams: what is enqueued on them, and in which order it runs.
//!
//! Traced operators are buffered per stream. Once anything else is enqueued on
//! the stream, or the host asks about it, the buffer is turned into events. Calls
//! that were issued before the calls in front of them ended form a run, whose
//! operators are timed together.

use crate::cuda_call::{CudaStream, HostId};
use crate::duration::Duration;
use crate::event_queue::{Action, ComputeMeta, EventId, EventQueue, NodeId, OpView};
use crate::simulator::stream_laws::{cut_when_idle, lemma_starts, starts_of};
use crate::table::{MapKey, Table};
use crate::torch_call::{
    call_bytes, call_infos, info_views, sequence_hash, CallView, RunHasher, TorchCall,
    TorchCallInfo,
};
use crate::torch_estimate::{TorchEstimator, TorchTimes};
use vstd::prelude::*;

verus! {

/// A stream of a traced process.
#[derive(Debug, PartialEq, Eq, Hash)]
pub struct StreamKey {
    pub host: HostId,
    pub stream: CudaStream,
}

/// What a [`StreamKey`] stands for.
pub type StreamName = ((Seq<char>, u32), CudaStream);

impl View for StreamKey {
    type V = StreamName;

    open spec fn view(&self) -> StreamName {
        (self.host@, self.stream)
    }
}

impl MapKey for StreamKey {
    fn same_key(&self, other: &Self) -> (b: bool) {
        self.stream == other.stream && self.host.same_key(&other.host)
    }
}

impl Clone for StreamKey {
    fn clone(&self) -> (r: Self)
        ensures
            r == *self,
    {
        StreamKey { host: self.host.clone(), stream: self.stream }
    }
}

/// A buffered call with its time when run alone.
pub type TimedCall = (TorchCall, Duration);

/// Buffered calls that are timed together: a single call with its own time, or
/// a run of calls.
pub enum TorchCallSeq {
    Single(TorchCall, Duration),
    Run(Vec<TorchCall>),
}

/// What a [`TorchCallSeq`] stands for.
#[verifier::ext_equal]
pub enum SeqView {
    Single(TorchCall, Duration),
    Run(Seq<TorchCall>),
}

impl View for TorchCallSeq {
    type V = SeqView;

    open spec fn view(&self) -> SeqView {
        match *self {
            TorchCallSeq::Single(call, dur) => SeqView::Single(call, dur),
            TorchCallSeq::Run(calls) => SeqView::Run(calls@),
        }
    }
}

/// How some calls of one run are timed: one call alone keeps its own time.
pub open spec fn seq_of(calls: Seq<TimedCall>) -> SeqView {
    if calls.len() == 1 {
        SeqView::Single(calls[0].0, calls[0].1)
    } else {
        SeqView::Run(calls.map_values(|c: TimedCall| c.0))
    }
}

impl TorchCallSeq {
    /// The way to time some calls of one run.
    pub fn new(calls: Vec<TimedCall>) -> (s: Self)
        ensures
            s@ == seq_of(calls@),
    {
        let mut calls = calls;
        let ghost all = calls@;
        if calls.len() == 1 {
            if let Some((call, dur)) = calls.pop() {
                return TorchCallSeq::Single(call, dur);
            }
        }
        let mut out: Vec<TorchCall> = Vec::new();
        for c in it: calls
            invariant
                it.seq() == all,
                out@ == all.take(it.index()).map_values(|c: TimedCall| c.0),
        {
            out.push(c.0);
            assert(out@ =~= all.take(it.index() + 1).map_values(|c: TimedCall| c.0));
        }
        assert(all.take(all.len() as int) =~= all);
        TorchCallSeq::Run(out)
    }
}

/// When call `i` ends if it starts as soon as it is issued and the run it
/// belongs to is done with the calls before it.
pub open spec fn end_after(calls: Seq<TimedCall>, i: int) -> int
    decreases i,
{
    if i <= 0 {
        calls[0].0.time + calls[0].1.micros()
    } else if calls[i].0.time <= end_after(calls, i - 1) {
        end_after(calls, i - 1) + calls[i].1.micros()
    } else {
        calls[i].0.time + calls[i].1.micros()
    }
}

/// Whether call `i` is the first of a run: it was issued after the calls before
/// it had ended.
pub open spec fn starts_run(calls: Seq<TimedCall>, i: int) -> bool {
    i == 0 || calls[i].0.time > end_after(calls, i - 1)
}

/// The first `n` calls, cut into runs.
pub open spec fn runs(calls: Seq<TimedCall>, n: int) -> Seq<Seq<TimedCall>>
    decreases n,
{
    if n <= 0 {
        seq![]
    } else {
        let before = runs(calls, n - 1);
        if starts_run(calls, n - 1) {
            before.push(seq![calls[n - 1]])
        } else {
            before.update(before.len() - 1, before.last().push(calls[n - 1]))
        }
    }
}

/// How buffered calls are timed. With `single` every call keeps its own time.
pub open spec fn split(calls: Seq<TimedCall>, single: bool) -> Seq<SeqView> {
    if single {
        calls.map_values(|c: TimedCall| SeqView::Single(c.0, c.1))
    } else {
        runs(calls, calls.len() as int).map_values(|r: Seq<TimedCall>| seq_of(r))
    }
}

/// What each of some entries stands for.
pub open spec fn seq_views(seqs: Seq<TorchCallSeq>) -> Seq<SeqView> {
    seqs.map_values(|s: TorchCallSeq| s@)
}

/// Cuts buffered calls into what is timed together.
pub fn split_sequences(calls: Vec<TimedCall>, single: bool) -> (seqs: Vec<TorchCallSeq>)
    ensures
        seq_views(seqs@) == split(calls@, single),
{
    let ghost all = calls@;
    let mut seqs: Vec<TorchCallSeq> = Vec::new();
    if single {
        for c in it: calls
            invariant
                it.seq() == all,
                seq_views(seqs@) == split(all.take(it.index()), true),
        {
            let ghost prev = seqs@;
            seqs.push(TorchCallSeq::Single(c.0, c.1));
            assert(seq_views(seqs@) =~= seq_views(prev).push(SeqView::Single(c.0, c.1)));
            assert(seq_views(seqs@) =~= split(all.take(it.index() + 1), true));
        }
        assert(all.take(all.len() as int) =~= all);
        return seqs;
    }
    if calls.len() == 0 {
        assert(seq_views(seqs@) =~= split(all, false));
        return seqs;
    }
    let ghost mut done: Seq<Seq<TimedCall>> = seq![];
    let mut last_seq: Vec<TimedCall> = Vec::new();
    let mut curr_end: i64 = calls[0].0.time;
    for c in it: calls
        invariant
            it.seq() == all,
            all.len() > 0,
            seq_views(seqs@) == done.map_values(|r: Seq<TimedCall>| seq_of(r)),
            it.index() == 0 ==> last_seq@.len() == 0 && done.len() == 0 && curr_end
                == all[0].0.time,
            it.index() > 0 ==> runs(all, it.index()) == done.push(last_seq@),
            it.index() > 0 ==> curr_end == if end_after(all, it.index() - 1) > i64::MAX {
                i64::MAX as int
            } else {
                end_after(all, it.index() - 1)
            },
    {
        let ghost i = it.index();
        let micros = c.1.as_micros();
        if c.0.time <= curr_end {
            let ghost prev = last_seq@;
            curr_end = if curr_end > i64::MAX - micros {
                i64::MAX
            } else {
                curr_end + micros
            };
            last_seq.push(c);
            proof {
                if i > 0 {
                    assert(runs(all, i + 1) =~= done.push(prev).update(
                        done.len() as int,
                        prev.push(all[i]),
                    ));
                    assert(runs(all, i + 1) =~= done.push(last_seq@));
                } else {
                    assert(runs(all, 0) =~= seq![]);
                    assert(last_seq@ =~= seq![all[0]]);
                    assert(runs(all, 1) =~= done.push(last_seq@));
                }
            }
        } else {
            let ghost prev = last_seq@;
            let ghost before = done;
            curr_end = if c.0.time > i64::MAX - micros {
                i64::MAX
            } else {
                c.0.time + micros
            };
            let mut next: Vec<TimedCall> = Vec::new();
            next.push(c);
            core::mem::swap(&mut last_seq, &mut next);
            let ghost timed = seqs@;
            seqs.push(TorchCallSeq::new(next));
            proof {
                done = done.push(prev);
                assert(seq_views(seqs@) =~= seq_views(timed).push(seq_of(prev)));
                assert(seq_views(seqs@) =~= done.map_values(|r: Seq<TimedCall>| seq_of(r)));
                assert(last_seq@ =~= seq![all[i]]);
                assert(runs(all, i + 1) =~= done.push(last_seq@));
            }
        }
    }
    let ghost tail = last_seq@;
    let ghost timed = seqs@;
    seqs.push(TorchCallSeq::new(last_seq));
    assert(seq_views(seqs@) =~= seq_views(timed).push(seq_of(tail)));
    assert(seq_views(seqs@) =~= split(all, false)) by {
        assert(runs(all, all.len() as int) == done.push(tail));
    }
    seqs
}

/// The event that comes last, if there is one.
pub open spec fn last_event(events: Seq<EventId>) -> Option<EventId> {
    if events.len() == 0 {
        None
    } else {
        Some(events.last())
    }
}

/// The dependency on the event that comes last, if there is one.
pub open spec fn after_last(events: Seq<EventId>) -> Seq<Option<EventId>> {
    if events.len() == 0 {
        seq![]
    } else {
        seq![Some(events.last())]
    }
}

/// The addition of a traced operator behind the events of its stream.
pub open spec fn compute_op(events: Seq<EventId>, call: TorchCall, dur: Duration) -> OpView {
    OpView::Add {
        depends_on: after_last(events),
        action: Some(
            Action::Computation(NodeId(call.id.host), dur.micros(), ComputeMeta::Torch(call)),
        ),
        time: call.time,
    }
}

/// The operations issued so far and the events of one stream.
#[verifier::ext_equal]
pub struct Lane {
    pub queue: Seq<OpView>,
    pub events: Seq<EventId>,
}

impl Lane {
    /// With one more event, which becomes the last of the stream.
    pub open spec fn push(self, op: OpView) -> Lane {
        Lane {
            queue: self.queue.push(op),
            events: self.events.push(self.queue.len() as EventId),
        }
    }

    /// With some operators added one behind the other.
    pub open spec fn run(self, calls: Seq<TimedCall>) -> Lane
        decreases calls.len(),
    {
        if calls.len() == 0 {
            self
        } else {
            let before = self.run(calls.drop_last());
            before.push(compute_op(before.events, calls.last().0, calls.last().1))
        }
    }
}

/// Some calls with the times given for them.
pub open spec fn zip_times(calls: Seq<TorchCall>, durs: Seq<Duration>) -> Seq<TimedCall> {
    Seq::new(calls.len(), |i: int| (calls[i], durs[i]))
}

/// The calls of one entry with their times.
pub open spec fn timed(times: TorchTimes, s: SeqView) -> Seq<TimedCall> {
    match s {
        SeqView::Single(call, dur) => seq![(call, dur)],
        SeqView::Run(calls) => zip_times(calls, times.sequence_answer(call_infos(calls))->0),
    }
}

/// The calls of the first `n` entries with their times.
pub open spec fn timed_all(times: TorchTimes, seqs: Seq<SeqView>, n: int) -> Seq<TimedCall>
    decreases n,
{
    if n <= 0 {
        seq![]
    } else {
        timed_all(times, seqs, n - 1) + timed(times, seqs[n - 1])
    }
}

/// What is known of times once the first `n` entries were asked for.
pub open spec fn times_after(times: TorchTimes, seqs: Seq<SeqView>, n: int) -> TorchTimes
    decreases n,
{
    if n <= 0 {
        times
    } else {
        let before = times_after(times, seqs, n - 1);
        match seqs[n - 1] {
            SeqView::Single(_, _) => before,
            SeqView::Run(calls) => before.sequence_asked(call_infos(calls)),
        }
    }
}

/// Whether an entry has a time for each of its calls.
pub open spec fn has_times(times: TorchTimes, s: SeqView) -> bool {
    match s {
        SeqView::Single(_, _) => true,
        SeqView::Run(calls) => match times.sequence_answer(call_infos(calls)) {
            Some(durs) => durs.len() >= calls.len(),
            None => false,
        },
    }
}

pub proof fn lemma_times_after(times: TorchTimes, seqs: Seq<SeqView>, n: int)
    ensures
        times_after(times, seqs, n).replay == times.replay,
        times_after(times, seqs, n).sequence == times.sequence,
        forall|calls: Seq<CallView>|
            times_after(times, seqs, n).sequence_answer(calls) == times.sequence_answer(calls),
        forall|call: CallView|
            #[trigger] times_after(times, seqs, n).answer(call) == times.answer(call),
    decreases n,
{
    if n > 0 {
        lemma_times_after(times, seqs, n - 1);
        let before = times_after(times, seqs, n - 1);
        let after = times_after(times, seqs, n);
        if let SeqView::Run(calls) = seqs[n - 1] {
            if times.replay {
                assert forall|call: CallView| #[trigger]
                    after.answer(call) == times.answer(call) by {
                    crate::torch_estimate::lemma_asked_all(before, call_infos(calls), call);
                    assert(before.answer(call) == times.answer(call));
                }
                crate::torch_estimate::lemma_asked_all(
                    before,
                    call_infos(calls),
                    call_infos(calls)[0],
                );
                assert forall|c: Seq<CallView>| after.sequence_answer(c) == times.sequence_answer(
                    c,
                ) by {
                    assert(after.replayed(c) =~= times.replayed(c)) by {
                        assert forall|i: int| 0 <= i < c.len() implies after.replayed(c)[i]
                            == times.replayed(c)[i] by {
                            assert(after.answer(c[i]) == times.answer(c[i]));
                        }
                    }
                }
            }
        }
    }
}

/// What is enqueued on one stream.
pub struct StreamInfo {
    events: Vec<EventId>,
    buffered: Vec<TimedCall>,
}

/// What a [`StreamInfo`] stands for.
#[verifier::ext_equal]
pub struct StreamView {
    /// The events of the stream, in order.
    pub events: Seq<EventId>,
    /// The traced calls that are not events yet.
    pub buffered: Seq<TimedCall>,
}

impl View for StreamInfo {
    type V = StreamView;

    closed spec fn view(&self) -> StreamView {
        StreamView { events: self.events@, buffered: self.buffered@ }
    }
}

impl StreamInfo {
    fn new() -> (s: Self)
        ensures
            s@ == StreamView::empty(),
    {
        let s = StreamInfo { events: Vec::new(), buffered: Vec::new() };
        assert(s@ =~= StreamView::empty());
        s
    }

    fn last(&self) -> (r: Option<EventId>)
        ensures
            r == last_event(self@.events),
    {
        if self.events.len() == 0 {
            None
        } else {
            Some(self.events[self.events.len() - 1])
        }
    }
}

impl StreamView {
    /// A stream on which nothing was enqueued.
    pub open spec fn empty() -> StreamView {
        StreamView { events: seq![], buffered: seq![] }
    }

    /// Whether the buffered calls can be turned into events.
    pub open spec fn ready(self, times: TorchTimes, single: bool) -> bool {
        let seqs = split(self.buffered, single);
        forall|i: int| 0 <= i < seqs.len() ==> has_times(times, #[trigger] seqs[i])
    }

    /// The operations and events once the buffered calls were turned into events.
    pub open spec fn flushed(self, times: TorchTimes, single: bool, queue: Seq<OpView>) -> Lane {
        let seqs = split(self.buffered, single);
        (Lane { queue, events: self.events }).run(timed_all(times, seqs, seqs.len() as int))
    }

    /// What is known of times once the buffered calls were turned into events.
    pub open spec fn times_flushed(self, times: TorchTimes, single: bool) -> TorchTimes {
        let seqs = split(self.buffered, single);
        times_after(times, seqs, seqs.len() as int)
    }
}

/// Turns the buffered calls of a stream into events behind those it has.
pub fn clear_compute_buffer_on(
    torch_estimator: &mut TorchEstimator,
    single: bool,
    sinfo: &mut StreamInfo,
    queue: &mut EventQueue,
)
    requires
        old(sinfo)@.ready(old(torch_estimator)@, single),
    ensures
        final(queue)@ == old(sinfo)@.flushed(old(torch_estimator)@, single, old(queue)@).queue,
        final(sinfo)@ == (StreamView {
            events: old(sinfo)@.flushed(old(torch_estimator)@, single, old(queue)@).events,
            buffered: seq![],
        }),
        final(torch_estimator)@ == old(sinfo)@.times_flushed(old(torch_estimator)@, single),
{
    let ghost times = torch_estimator@;
    let ghost start = Lane { queue: queue@, events: sinfo@.events };
    let ghost seqs = split(sinfo@.buffered, single);
    let mut calls: Vec<TimedCall> = Vec::new();
    core::mem::swap(&mut calls, &mut sinfo.buffered);
    let call_seqs = split_sequences(calls, single);
    let ghost exec_seqs = call_seqs@;
    assert(start.run(seq![]) =~= start);
    for call_seq in it: call_seqs
        invariant
            it.seq() == exec_seqs,
            seq_views(exec_seqs) == seqs,
            sinfo.buffered@ == Seq::<TimedCall>::empty(),
            forall|i: int| 0 <= i < seqs.len() ==> has_times(times, #[trigger] seqs[i]),
            torch_estimator@ == times_after(times, seqs, it.index()),
            start.run(timed_all(times, seqs, it.index())) == (Lane {
                queue: queue@,
                events: sinfo.events@,
            }),
    {
        let ghost n = it.index();
        let ghost earlier = timed_all(times, seqs, n);
        proof {
            lemma_times_after(times, seqs, n);
            assert(seqs[n] == call_seq@);
            assert(has_times(times, seqs[n]));
        }
        let mut run: Vec<TorchCall> = Vec::new();
        let mut durs: Vec<Duration> = Vec::new();
        match call_seq {
            TorchCallSeq::Single(call, dur) => {
                run.push(call);
                durs.push(dur);
                assert(zip_times(run@, durs@) =~= timed(times, seqs[n]));
            },
            TorchCallSeq::Run(calls) => {
                if let Some(d) = torch_estimator.estimate_sequence(&calls) {
                    durs = d;
                }
                run = calls;
                assert(zip_times(run@, durs@) =~= timed(times, seqs[n]));
            },
        }
        let ghost entry = zip_times(run@, durs@);
        let ghost all = run@;
        let mut i: usize = 0;
        assert(earlier + entry.take(0) =~= earlier);
        for call in inner: run
            invariant
                inner.seq() == all,
                i == inner.index(),
                all.len() <= durs@.len(),
                entry == zip_times(all, durs@),
                sinfo.buffered@ == Seq::<TimedCall>::empty(),
                start.run(earlier + entry.take(i as int)) == (Lane {
                    queue: queue@,
                    events: sinfo.events@,
                }),
        {
            let ghost so_far = earlier + entry.take(i as int);
            let ghost lane = Lane { queue: queue@, events: sinfo.events@ };
            let micros = durs[i].as_micros();
            let mut depends_on: Vec<Option<EventId>> = Vec::new();
            if let Some(last) = sinfo.last() {
                depends_on.push(Some(last));
            }
            assert(depends_on@ =~= after_last(sinfo.events@));
            let node = NodeId(call.id.host.clone());
            let time = call.time;
            let id = queue.add_action_or_point(
                depends_on,
                Some(Action::Computation(node, micros, ComputeMeta::Torch(call))),
                time,
            );
            sinfo.events.push(id);
            proof {
                let now = earlier + entry.take(i + 1);
                assert(now.drop_last() =~= so_far);
                assert(now.last() == (call, durs@[i as int]));
                assert(start.run(now) =~= (Lane { queue: queue@, events: sinfo.events@ }));
            }
            assert(i < durs.len());
            i += 1;
        }
        proof {
            assert(entry.take(entry.len() as int) =~= entry);
            assert(timed_all(times, seqs, n + 1) =~= earlier + entry);
        }
    }
    assert(sinfo@ =~= (StreamView {
        events: start.run(timed_all(times, seqs, seqs.len() as int)).events,
        buffered: seq![],
    }));
}

/// What keeps the calls buffered on a stream from being turned into events.
pub enum RunCheck {
    /// Nothing does.
    Ready,
    /// A run of calls has to be measured first.
    Measure(Vec<TorchCallInfo>),
    /// A run of calls has fewer recorded times than calls.
    Short,
}

/// What a [`RunCheck`] stands for.
#[verifier::ext_equal]
pub enum CheckView {
    Ready,
    Measure(Seq<CallView>),
    Short,
}

impl View for RunCheck {
    type V = CheckView;

    open spec fn view(&self) -> CheckView {
        match *self {
            RunCheck::Ready => CheckView::Ready,
            RunCheck::Measure(calls) => CheckView::Measure(info_views(calls@)),
            RunCheck::Short => CheckView::Short,
        }
    }
}

/// What keeps one entry from having times.
pub open spec fn entry_check(times: TorchTimes, s: SeqView) -> CheckView {
    match s {
        SeqView::Single(_, _) => CheckView::Ready,
        SeqView::Run(calls) => match times.sequence_answer(call_infos(calls)) {
            Some(durs) => if durs.len() >= calls.len() {
                CheckView::Ready
            } else {
                CheckView::Short
            },
            None => CheckView::Measure(call_infos(calls)),
        },
    }
}

/// What keeps the first of the entries from `i` on that has no times from having
/// them.
pub open spec fn entries_check(times: TorchTimes, seqs: Seq<SeqView>, i: int) -> CheckView
    decreases seqs.len() - i,
{
    if i < 0 || i >= seqs.len() {
        CheckView::Ready
    } else if entry_check(times, seqs[i]) is Ready {
        entries_check(times, seqs, i + 1)
    } else {
        entry_check(times, seqs[i])
    }
}

proof fn lemma_entries_check(times: TorchTimes, seqs: Seq<SeqView>, i: int)
    requires
        0 <= i <= seqs.len(),
    ensures
        entries_check(times, seqs, i) is Ready <==> forall|j: int|
            i <= j < seqs.len() ==> has_times(times, #[trigger] seqs[j]),
    decreases seqs.len() - i,
{
    if i < seqs.len() {
        lemma_entries_check(times, seqs, i + 1);
        assert(entry_check(times, seqs[i]) is Ready <==> has_times(times, seqs[i]));
    }
}

/// The end of run `k` among the first `n` calls, given where the runs start.
pub open spec fn run_end(starts: Seq<usize>, k: int, n: int) -> int {
    if k + 1 < starts.len() {
        starts[k + 1] as int
    } else {
        n
    }
}

/// Whether the first `n` calls fall into runs that start at the given places.
pub open spec fn cut_at(calls: Seq<TimedCall>, starts: Seq<usize>, n: int) -> bool {
    &&& runs(calls, n).len() == starts.len()
    &&& n > 0 ==> starts.len() > 0 && starts[0] == 0
    &&& forall|k: int|
        0 <= k < starts.len() ==> (#[trigger] starts[k]) < run_end(starts, k, n) <= n && runs(
            calls,
            n,
        )[k] == calls.subrange(starts[k] as int, run_end(starts, k, n))
}

/// Some places as numbers.
pub open spec fn positions(starts: Seq<usize>) -> Seq<int> {
    starts.map_values(|i: usize| i as int)
}

/// Where the runs of some buffered calls start. Every call belongs to one run, and
/// a run is made of calls that follow each other.
pub fn run_starts(calls: &Vec<TimedCall>) -> (starts: Vec<usize>)
    ensures
        cut_at(calls@, starts@, calls@.len() as int),
        cut_when_idle(calls@, positions(starts@), calls@.len() as int),
{
    let ghost all = calls@;
    let mut starts: Vec<usize> = Vec::new();
    let mut curr_end: i64 = 0;
    let mut i: usize = 0;
    while i < calls.len()
        invariant
            i <= all.len(),
            calls@ == all,
            cut_at(all, starts@, i as int),
            positions(starts@) == starts_of(all, i as int),
            i > 0 ==> curr_end == if end_after(all, i - 1) > i64::MAX {
                i64::MAX as int
            } else {
                end_after(all, i - 1)
            },
        decreases all.len() - i,
    {
        let time = calls[i].0.time;
        let micros = calls[i].1.as_micros();
        let ghost before = runs(all, i as int);
        let ghost after = runs(all, i + 1);
        let ghost prev = starts@;
        let begins = i == 0 || time > curr_end;
        let from = if begins {
            time
        } else {
            curr_end
        };
        curr_end = if from > i64::MAX - micros {
            i64::MAX
        } else {
            from + micros
        };
        if begins {
            starts.push(i);
            proof {
                assert(positions(starts@) =~= positions(prev).push(i as int));
                assert(after == before.push(seq![all[i as int]]));
                assert(all.subrange(i as int, i + 1) =~= seq![all[i as int]]);
                assert forall|k: int| 0 <= k < starts@.len() implies (#[trigger] starts@[k])
                    < run_end(starts@, k, i + 1) <= i + 1 && after[k] == all.subrange(
                    starts@[k] as int,
                    run_end(starts@, k, i + 1),
                ) by {
                    if k < prev.len() {
                        assert(prev[k] < run_end(prev, k, i as int));
                        assert(run_end(starts@, k, i + 1) == run_end(prev, k, i as int));
                    }
                }
            }
        } else {
            proof {
                let last = before.len() - 1;
                assert(prev[last] < run_end(prev, last, i as int));
                assert(after == before.update(last, before.last().push(all[i as int])));
                assert(all.subrange(prev[last] as int, i + 1) =~= before.last().push(
                    all[i as int],
                ));
                assert forall|k: int| 0 <= k < starts@.len() implies (#[trigger] starts@[k])
                    < run_end(starts@, k, i + 1) <= i + 1 && after[k] == all.subrange(
                    starts@[k] as int,
                    run_end(starts@, k, i + 1),
                ) by {
                    assert(prev[k] < run_end(prev, k, i as int));
                }
            }
        }
        i += 1;
    }
    proof {
        lemma_starts(all, all.len() as int);
    }
    starts
}

/// What keeps a run of buffered calls from having times.
fn check_run(
    torch_estimator: &TorchEstimator,
    calls: &Vec<TimedCall>,
    lo: usize,
    hi: usize,
) -> (r: RunCheck)
    requires
        lo < hi <= calls@.len(),
    ensures
        r@ == entry_check(
            torch_estimator@,
            seq_of(calls@.subrange(lo as int, hi as int)),
        ),
{
    if hi - lo == 1 {
        return RunCheck::Ready;
    }
    let ghost part = calls@.subrange(lo as int, hi as int).map_values(|c: TimedCall| c.0);
    let ghost all = call_infos(part).map_values(|c: CallView| call_bytes(c));
    let mut hasher = RunHasher::new();
    let mut i: usize = lo;
    assert(hasher@ =~= all.take(0));
    while i < hi
        invariant
            lo <= i <= hi <= calls@.len(),
            part == calls@.subrange(lo as int, hi as int).map_values(|c: TimedCall| c.0),
            all == call_infos(part).map_values(|c: CallView| call_bytes(c)),
            hasher@ == all.take(i - lo),
        decreases hi - i,
    {
        hasher.write(&calls[i].0.info);
        assert(hasher@ =~= all.take(i + 1 - lo));
        i += 1;
    }
    assert(all.take(all.len() as int) =~= all);
    match torch_estimator.sequence_len(hasher.finish()) {
        Some(n) => {
            if n >= hi - lo {
                RunCheck::Ready
            } else {
                RunCheck::Short
            }
        },
        None => {
            if torch_estimator.is_replay() {
                return RunCheck::Ready;
            }
            let mut infos: Vec<TorchCallInfo> = Vec::new();
            let mut j: usize = lo;
            assert(info_views(infos@) =~= call_infos(part).take(0));
            while j < hi
                invariant
                    lo <= j <= hi <= calls@.len(),
                    part == calls@.subrange(lo as int, hi as int).map_values(|c: TimedCall| c.0),
                    info_views(infos@) == call_infos(part).take(j - lo),
                decreases hi - j,
            {
                let ghost prev = infos@;
                infos.push(calls[j].0.info.clone());
                assert(info_views(infos@) =~= info_views(prev).push(part[j - lo].info@));
                assert(info_views(infos@) =~= call_infos(part).take(j + 1 - lo));
                j += 1;
            }
            assert(info_views(infos@) =~= call_infos(part));
            RunCheck::Measure(infos)
        },
    }
}

impl StreamInfo {
    /// What keeps the buffered calls from being turned into events.
    fn check(&self, torch_estimator: &TorchEstimator, single: bool) -> (r: RunCheck)
        ensures
            r@ == entries_check(torch_estimator@, split(self@.buffered, single), 0),
    {
        let ghost seqs = split(self@.buffered, single);
        let ghost times = torch_estimator@;
        if single {
            proof {
                lemma_entries_check(times, seqs, 0);
            }
            return RunCheck::Ready;
        }
        let starts = run_starts(&self.buffered);
        let n = self.buffered.len();
        let mut k: usize = 0;
        while k < starts.len()
            invariant
                k <= starts@.len(),
                !single,
                n == self.buffered@.len(),
                times == torch_estimator@,
                cut_at(self.buffered@, starts@, n as int),
                seqs == split(self.buffered@, single),
                seqs.len() == starts@.len(),
                entries_check(times, seqs, 0) == entries_check(times, seqs, k as int),
            decreases starts@.len() - k,
        {
            let lo = starts[k];
            let hi = if k + 1 < starts.len() {
                starts[k + 1]
            } else {
                n
            };
            assert(hi == run_end(starts@, k as int, n as int));
            assert(seqs[k as int] == seq_of(
                self.buffered@.subrange(lo as int, hi as int),
            ));
            match check_run(torch_estimator, &self.buffered, lo, hi) {
                RunCheck::Ready => {},
                other => {
                    return other;
                },
            }
            k += 1;
        }
        RunCheck::Ready
    }
}

/// The streams of a simulation, with the events they are turned into.
pub struct StreamCore {
    torch_estimator: TorchEstimator,
    queue: EventQueue,
    stream_info: Table<StreamKey, StreamInfo>,
    single: bool,
}

/// What a [`StreamCore`] stands for.
#[verifier::ext_equal]
pub struct CoreView {
    /// What is known of the times of operators.
    pub times: TorchTimes,
    /// The operations issued so far.
    pub queue: Seq<OpView>,
    /// The streams on which something was enqueued.
    pub streams: Map<StreamName, StreamView>,
    /// Their names, in the order in which they came up.
    pub order: Seq<StreamName>,
    /// Whether every call keeps its own time.
    pub single: bool,
}

impl View for StreamCore {
    type V = CoreView;

    closed spec fn view(&self) -> CoreView {
        CoreView {
            times: self.torch_estimator@,
            queue: self.queue@,
            streams: self.stream_info@,
            order: self.stream_info.keys(),
            single: self.single,
        }
    }
}

/// Whether a stream belongs to a process and a device.
pub open spec fn of_device(host: (Seq<char>, u32), device: i32) -> spec_fn(StreamName) -> bool {
    |n: StreamName| n.0 == host && n.1.device == device
}

impl CoreView {
    /// What is enqueued on a stream.
    pub open spec fn stream(self, name: StreamName) -> StreamView {
        if self.streams.contains_key(name) {
            self.streams[name]
        } else {
            StreamView::empty()
        }
    }

    /// Whether the calls buffered on a stream can be turned into events.
    pub open spec fn ready(self, name: StreamName) -> bool {
        self.stream(name).ready(self.times, self.single)
    }

    /// What keeps the calls buffered on a stream from being turned into events.
    pub open spec fn check(self, name: StreamName) -> CheckView {
        entries_check(self.times, split(self.stream(name).buffered, self.single), 0)
    }

    /// What keeps the calls buffered on the first of some streams, from `i` on,
    /// that is not ready from being turned into events.
    pub open spec fn check_all(self, names: Seq<StreamName>, i: int) -> CheckView
        decreases names.len() - i,
    {
        if i < 0 || i >= names.len() {
            CheckView::Ready
        } else if self.check(names[i]) is Ready {
            self.check_all(names, i + 1)
        } else {
            self.check(names[i])
        }
    }

    /// The streams of a process on a device, in the order in which they came up.
    pub open spec fn device_streams(self, host: (Seq<char>, u32), device: i32) -> Seq<StreamName> {
        self.order.filter(of_device(host, device))
    }

    /// With the calls buffered on some streams turned into events.
    pub open spec fn flush_all(self, names: Seq<StreamName>) -> CoreView
        decreases names.len(),
    {
        if names.len() == 0 {
            self
        } else {
            self.flush_all(names.drop_last()).flush(names.last())
        }
    }

    /// The last events of some streams, each taken once its buffered calls were
    /// turned into events.
    pub open spec fn last_events(self, names: Seq<StreamName>) -> Seq<Option<EventId>>
        decreases names.len(),
    {
        if names.len() == 0 {
            seq![]
        } else {
            self.last_events(names.drop_last()) + after_last(
                self.flush_all(names).stream(names.last()).events,
            )
        }
    }

    /// With a stream as it is given.
    pub open spec fn with_stream(self, name: StreamName, stream: StreamView) -> CoreView {
        CoreView {
            streams: self.streams.insert(name, stream),
            order: if self.streams.contains_key(name) {
                self.order
            } else {
                self.order.push(name)
            },
            ..self
        }
    }

    /// With the calls buffered on a stream turned into events.
    pub open spec fn flush(self, name: StreamName) -> CoreView {
        let lane = self.stream(name).flushed(self.times, self.single, self.queue);
        CoreView {
            times: self.stream(name).times_flushed(self.times, self.single),
            queue: lane.queue,
            ..self.with_stream(name, StreamView { events: lane.events, buffered: seq![] })
        }
    }

    /// With one more operation.
    pub open spec fn op(self, op: OpView) -> CoreView {
        CoreView { queue: self.queue.push(op), ..self }
    }

    /// The name of the event that the next operation adds.
    pub open spec fn next(self) -> EventId {
        self.queue.len() as EventId
    }

    /// With one more event on a stream: the calls buffered there go first, and
    /// the event depends on the last event of the stream besides those given.
    pub open spec fn event(
        self,
        name: StreamName,
        depends_on: Seq<Option<EventId>>,
        action: Option<Action>,
        time: i64,
    ) -> CoreView {
        let clear = self.flush(name);
        let events = clear.streams[name].events;
        clear.op(
            OpView::Add { depends_on: depends_on + after_last(events), action, time },
        ).with_stream(name, StreamView { events: events.push(clear.next()), buffered: seq![] })
    }

    /// The name of the event that [`CoreView::event`] adds.
    pub open spec fn event_id(self, name: StreamName) -> EventId {
        self.flush(name).next()
    }

    /// With one more traced call in the buffer of a stream.
    pub open spec fn buffer(self, name: StreamName, call: TimedCall) -> CoreView {
        let stream = self.stream(name);
        self.with_stream(
            name,
            StreamView { buffered: stream.buffered.push(call), ..stream },
        )
    }
}

/// A stream is ready when nothing keeps it from being so.
pub proof fn lemma_check(core: CoreView, name: StreamName)
    ensures
        core.check(name) is Ready <==> core.ready(name),
{
    lemma_entries_check(
        core.times,
        split(core.stream(name).buffered, core.single),
        0,
    );
}

/// Some streams are ready when nothing keeps any of them from being so.
pub proof fn lemma_check_all(core: CoreView, names: Seq<StreamName>, i: int)
    requires
        0 <= i <= names.len(),
    ensures
        core.check_all(names, i) is Ready <==> forall|j: int|
            i <= j < names.len() ==> core.ready(#[trigger] names[j]),
    decreases names.len() - i,
{
    if i < names.len() {
        lemma_check(core, names[i]);
        lemma_check_all(core, names, i + 1);
    }
}

/// A run that was measured is no longer in the way: once its times were kept, the
/// entry has times for all its calls.
pub proof fn law_measured_run_has_times(
    times: TorchTimes,
    calls: Seq<TorchCall>,
    durations: Seq<Duration>,
)
    requires
        durations.len() == calls.len(),
    ensures
        has_times(
            TorchTimes {
                sequence: times.sequence.insert(sequence_hash(call_infos(calls)), durations),
                ..times
            },
            SeqView::Run(calls),
        ),
{
}

/// Turning the calls buffered on a stream into events does not change whether times are
/// replayed.
pub proof fn lemma_flush_replay(core: CoreView, name: StreamName)
    ensures
        core.flush(name).times.replay == core.times.replay,
{
    let seqs = split(core.stream(name).buffered, core.single);
    lemma_times_after(core.times, seqs, seqs.len() as int);
}

/// In replay no run of calls has to be measured.
pub proof fn lemma_replay_unmeasured(times: TorchTimes, seqs: Seq<SeqView>, i: int)
    requires
        times.replay,
    ensures
        !(entries_check(times, seqs, i) is Measure),
    decreases seqs.len() - i,
{
    if 0 <= i < seqs.len() {
        lemma_replay_unmeasured(times, seqs, i + 1);
    }
}

/// Turning the calls buffered on one stream into events makes no other stream
/// less ready.
pub proof fn lemma_flush_ready(core: CoreView, name: StreamName, other: StreamName)
    requires
        core.ready(other),
    ensures
        core.flush(name).ready(other),
{
    let seqs = split(core.stream(name).buffered, core.single);
    lemma_times_after(core.times, seqs, seqs.len() as int);
    let after = core.flush(name);
    if other == name {
        assert(after.stream(name).buffered =~= seq![]);
        assert(split(after.stream(name).buffered, core.single) =~= seq![]);
    } else {
        assert(after.stream(other) == core.stream(other));
        let rest = split(core.stream(other).buffered, core.single);
        assert forall|i: int| 0 <= i < rest.len() implies has_times(
            after.times,
            #[trigger] rest[i],
        ) by {
            assert(has_times(core.times, rest[i]));
        }
    }
}

/// Adding an event to one stream makes no other stream less ready.
pub proof fn lemma_event_ready(
    core: CoreView,
    name: StreamName,
    depends_on: Seq<Option<EventId>>,
    action: Option<Action>,
    time: i64,
    other: StreamName,
)
    requires
        core.ready(other),
    ensures
        core.event(name, depends_on, action, time).ready(other),
{
    lemma_flush_ready(core, name, other);
    let after = core.event(name, depends_on, action, time);
    if other == name {
        assert(split(after.stream(name).buffered, core.single) =~= seq![]);
    } else {
        assert(after.stream(other) == core.flush(name).stream(other));
    }
}

/// A stream to which an event was just added has nothing buffered.
pub proof fn lemma_event_clear(
    core: CoreView,
    name: StreamName,
    depends_on: Seq<Option<EventId>>,
    action: Option<Action>,
    time: i64,
)
    ensures
        core.event(name, depends_on, action, time).ready(name),
{
    let after = core.event(name, depends_on, action, time);
    assert(split(after.stream(name).buffered, core.single) =~= seq![]);
}

impl StreamCore {
    /// No stream, and no operation issued.
    pub fn new(torch_estimator: TorchEstimator, single: bool) -> (c: Self)
        ensures
            c@ == (CoreView {
                times: torch_estimator@,
                queue: seq![],
                streams: Map::empty(),
                order: seq![],
                single,
            }),
    {
        StreamCore { torch_estimator, queue: EventQueue::new(), stream_info: Table::new(), single }
    }

    fn open_stream(&mut self, key: &StreamKey)
        ensures
            final(self)@ == old(self)@.with_stream(key@, old(self)@.stream(key@)),
    {
        if !self.stream_info.contains_key(key) {
            self.stream_info.insert(key.clone(), StreamInfo::new());
        }
        assert(self@.streams =~= old(self)@.with_stream(
            key@,
            old(self)@.stream(key@),
        ).streams);
    }

    /// Turns the calls buffered on a stream into events.
    pub fn flush(&mut self, key: &StreamKey)
        requires
            old(self)@.ready(key@),
        ensures
            final(self)@ == old(self)@.flush(key@),
    {
        self.open_stream(key);
        let ghost open = self@;
        if let Some(sinfo) = self.stream_info.get_mut(key) {
            clear_compute_buffer_on(
                &mut self.torch_estimator,
                self.single,
                sinfo,
                &mut self.queue,
            );
        }
        assert(self@.streams =~= old(self)@.flush(key@).streams);
        assert(self@ =~= old(self)@.flush(key@));
    }

    /// What keeps the calls buffered on a stream from being turned into events.
    pub fn check(&self, key: &StreamKey) -> (r: RunCheck)
        ensures
            r@ == self@.check(key@),
    {
        match self.stream_info.get(key) {
            Some(sinfo) => sinfo.check(&self.torch_estimator, self.single),
            None => {
                let ghost seqs = split(self@.stream(key@).buffered, self@.single);
                assert(seqs =~= seq![]);
                RunCheck::Ready
            },
        }
    }

    /// Whether anything was ever enqueued on a stream.
    pub fn has_stream(&self, key: &StreamKey) -> (b: bool)
        ensures
            b == self@.streams.contains_key(key@),
    {
        self.stream_info.contains_key(key)
    }

    /// The streams of a process on a device.
    fn device_streams(&self, host: &HostId, device: i32) -> (r: Vec<StreamKey>)
        ensures
            r@.map_values(|k: StreamKey| k@) == self@.device_streams(host@, device),
    {
        let mut r: Vec<StreamKey> = Vec::new();
        let mut i: usize = 0;
        let ghost wanted = of_device(host@, device);
        let ghost all = self@.order;
        proof {
            reveal(Seq::filter);
            assert(r@.map_values(|k: StreamKey| k@) =~= all.take(0).filter(wanted));
        }
        while i < self.stream_info.len()
            invariant
                i <= all.len(),
                all == self@.order,
                all == self.stream_info.keys(),
                wanted == of_device(host@, device),
                r@.map_values(|k: StreamKey| k@) == all.take(i as int).filter(wanted),
            decreases all.len() - i,
        {
            let key = self.stream_info.key_at(i);
            proof {
                reveal(Seq::filter);
                assert(all.take(i + 1).drop_last() =~= all.take(i as int));
            }
            if key.stream.device == device && key.host.same_key(host) {
                let ghost prev = r@;
                r.push(key.clone());
                assert(r@.map_values(|k: StreamKey| k@) =~= prev.map_values(
                    |k: StreamKey| k@,
                ).push(key@));
            }
            i += 1;
        }
        assert(all.take(all.len() as int) =~= all);
        r
    }

    /// What keeps the streams of a process on a device from being flushed.
    pub fn check_device(&self, host: &HostId, device: i32) -> (r: RunCheck)
        ensures
            r@ == self@.check_all(self@.device_streams(host@, device), 0),
    {
        let keys = self.device_streams(host, device);
        let ghost names = self@.device_streams(host@, device);
        let mut i: usize = 0;
        while i < keys.len()
            invariant
                i <= keys@.len(),
                keys@.map_values(|k: StreamKey| k@) == names,
                names == self@.device_streams(host@, device),
                self@.check_all(names, 0) == self@.check_all(names, i as int),
            decreases keys@.len() - i,
        {
            assert(names[i as int] == keys@[i as int]@);
            match self.check(&keys[i]) {
                RunCheck::Ready => {},
                other => {
                    return other;
                },
            }
            i += 1;
        }
        RunCheck::Ready
    }

    /// Turns the calls buffered on the streams of a process on a device into
    /// events, and gives the last event of each.
    pub fn flush_device(&mut self, host: &HostId, device: i32) -> (r: Vec<Option<EventId>>)
        requires
            forall|i: int|
                0 <= i < old(self)@.device_streams(host@, device).len() ==> old(self)@.ready(
                    #[trigger] old(self)@.device_streams(host@, device)[i],
                ),
        ensures
            final(self)@ == old(self)@.flush_all(old(self)@.device_streams(host@, device)),
            r@ == old(self)@.last_events(old(self)@.device_streams(host@, device)),
    {
        let ghost first = self@;
        let keys = self.device_streams(host, device);
        let ghost names = first.device_streams(host@, device);
        let mut r: Vec<Option<EventId>> = Vec::new();
        let mut i: usize = 0;
        assert(r@ =~= first.last_events(names.take(0)));
        while i < keys.len()
            invariant
                i <= keys@.len(),
                keys@.map_values(|k: StreamKey| k@) == names,
                self@ == first.flush_all(names.take(i as int)),
                r@ == first.last_events(names.take(i as int)),
                forall|j: int| 0 <= j < names.len() ==> self@.ready(#[trigger] names[j]),
            decreases keys@.len() - i,
        {
            let ghost before = self@;
            let ghost deps = r@;
            assert(names[i as int] == keys@[i as int]@);
            self.flush(&keys[i]);
            proof {
                assert(names.take(i + 1).drop_last() =~= names.take(i as int));
                assert forall|j: int| 0 <= j < names.len() implies self@.ready(
                    #[trigger] names[j],
                ) by {
                    lemma_flush_ready(before, names[i as int], names[j]);
                }
            }
            if let Some(last) = self.last_event_of(&keys[i]) {
                r.push(Some(last));
            }
            assert(r@ =~= deps + after_last(self@.stream(names[i as int]).events));
            i += 1;
        }
        assert(names.take(names.len() as int) =~= names);
        r
    }

    /// Adds an event to a stream, behind the calls buffered there.
    pub fn add_event(
        &mut self,
        key: &StreamKey,
        depends_on: Vec<Option<EventId>>,
        action: Option<Action>,
        current_time: i64,
    ) -> (id: EventId)
        requires
            old(self)@.ready(key@),
        ensures
            id == old(self)@.event_id(key@),
            final(self)@ == old(self)@.event(key@, depends_on@, action, current_time),
    {
        let mut depends_on = depends_on;
        let ghost given = depends_on@;
        self.flush(key);
        let ghost clear = self@;
        let mut id: EventId = 0;
        if let Some(sinfo) = self.stream_info.get_mut(key) {
            if let Some(last) = sinfo.last() {
                depends_on.push(Some(last));
            }
            assert(depends_on@ =~= given + after_last(sinfo@.events));
            id = self.queue.add_action_or_point(depends_on, action, current_time);
            let ghost before = sinfo@;
            sinfo.events.push(id);
            assert(sinfo@ =~= (StreamView {
                events: before.events.push(clear.next()),
                buffered: seq![],
            }));
        }
        assert(self@.streams =~= old(self)@.event(
            key@,
            given,
            action,
            current_time,
        ).streams);
        id
    }

    /// Adds an event that belongs to no stream.
    pub fn add_point(&mut self, depends_on: Vec<Option<EventId>>, time: i64) -> (id: EventId)
        ensures
            id == old(self)@.next(),
            final(self)@ == old(self)@.op(crate::event_queue::point(depends_on@, time)),
    {
        self.queue.add_action_or_point(depends_on, None, time)
    }

    /// Adds an event that belongs to no stream and does something.
    pub fn add_action(
        &mut self,
        depends_on: Vec<Option<EventId>>,
        action: Action,
        time: i64,
    ) -> (id: EventId)
        ensures
            id == old(self)@.next(),
            final(self)@ == old(self)@.op(
                OpView::Add { depends_on: depends_on@, action: Some(action), time },
            ),
    {
        self.queue.add_action_or_point(depends_on, Some(action), time)
    }

    /// Lets an event wait for one more event.
    pub fn add_dependency(&mut self, event: EventId, on: EventId)
        ensures
            final(self)@ == old(self)@.op(OpView::AddDependency { event, on: Some(on) }),
    {
        self.queue.add_dependency(event, Some(on));
    }

    /// Lets an event go that was held back.
    pub fn release(&mut self, event: EventId)
        ensures
            final(self)@ == old(self)@.op(OpView::RemoveNoneDependency { event }),
    {
        self.queue.remove_none_dependency(event);
    }

    /// The times of operators.
    pub fn torch_estimator(&self) -> (e: &TorchEstimator)
        ensures
            e@ == self@.times,
    {
        &self.torch_estimator
    }

    /// The times of operators, to ask for or to add to.
    pub fn torch_estimator_mut(&mut self) -> (e: &mut TorchEstimator)
        ensures
            e@ == old(self)@.times,
            final(self)@ == (CoreView { times: final(e)@, ..old(self)@ }),
    {
        &mut self.torch_estimator
    }

    /// The operations issued so far.
    pub fn queue(&self) -> (q: &EventQueue)
        ensures
            q@ == self@.queue,
    {
        &self.queue
    }

    /// Buffers a traced call on a stream.
    pub fn buffer(&mut self, key: &StreamKey, call: TorchCall, dur: Duration)
        ensures
            final(self)@ == old(self)@.buffer(key@, (call, dur)),
    {
        self.open_stream(key);
        if let Some(sinfo) = self.stream_info.get_mut(key) {
            let ghost before = sinfo@;
            sinfo.buffered.push((call, dur));
            assert(sinfo@ =~= (StreamView {
                buffered: before.buffered.push((call, dur)),
                ..before
            }));
        }
        assert(self@.streams =~= old(self)@.buffer(key@, (call, dur)).streams);
    }

    /// The last event of a stream.
    pub fn last_event_of(&self, key: &StreamKey) -> (r: Option<EventId>)
        ensures
            r == last_event(self@.stream(key@).events),
    {
        match self.stream_info.get(key) {
            Some(sinfo) => sinfo.last(),
            None => None,
        }
    }
}

} // verus!
