//! What becomes of the calls that are buffered on streams.
//!
//! A stream works through its calls back to back. Calls are timed together for as long
//! as the stream does not run out of work, and every buffered call becomes one
//! computation on its stream, behind all that was enqueued there before it.

use crate::duration::Duration;
use crate::event_queue::{Action, ComputeMeta, EventId, NodeId, OpView};
use crate::simulator::streams::{
    after_last, compute_op, end_after, lemma_flush_ready, lemma_times_after, of_device, runs, seq_of,
    split, starts_run, timed, timed_all, CoreView, Lane, SeqView, StreamName, StreamView, TimedCall,
};
use crate::torch_call::{call_infos, CallView, TorchCall};
use crate::torch_estimate::TorchTimes;
use vstd::prelude::*;

verus! {

/// The microseconds that the calls from `lo` up to `hi` take one after the other.
pub open spec fn total_micros(calls: Seq<TimedCall>, lo: int, hi: int) -> int
    decreases hi - lo,
{
    if hi <= lo {
        0
    } else {
        total_micros(calls, lo, hi - 1) + (calls[hi - 1].1.nanos / 1000) as int
    }
}

/// Until when a stream is busy with the calls from `lo` up to `hi`, if they run back to
/// back from the time at which the first of them was issued.
pub open spec fn busy_until(calls: Seq<TimedCall>, lo: int, hi: int) -> int {
    calls[lo].0.time + total_micros(calls, lo, hi)
}

/// Where piece `k` of `n` calls ends, given where the pieces begin.
pub open spec fn piece_end(starts: Seq<int>, k: int, n: int) -> int {
    if k + 1 < starts.len() {
        starts[k + 1]
    } else {
        n
    }
}

/// Whether piece `k` of `n` calls has calls.
pub open spec fn has_calls(starts: Seq<int>, k: int, n: int) -> bool {
    0 <= starts[k] < piece_end(starts, k, n) <= n
}

/// Whether the first call of piece `k` was issued after the stream was done with the
/// piece before it.
pub open spec fn begins_idle(calls: Seq<TimedCall>, starts: Seq<int>, k: int) -> bool {
    calls[starts[k]].0.time > busy_until(calls, starts[k - 1], starts[k])
}

/// Whether call `i` was issued before the stream was done with the calls of piece `k`
/// before it.
pub open spec fn finds_busy(calls: Seq<TimedCall>, starts: Seq<int>, k: int, i: int) -> bool {
    calls[i].0.time <= busy_until(calls, starts[k], i)
}

/// Whether the first `n` calls are cut exactly where the stream has run out of work: a
/// call begins a piece if and only if it was issued after the stream was done with all
/// calls of the piece before it.
pub open spec fn cut_when_idle(calls: Seq<TimedCall>, starts: Seq<int>, n: int) -> bool {
    &&& n > 0 <==> starts.len() > 0
    &&& starts.len() > 0 ==> starts[0] == 0
    &&& forall|k: int| 0 <= k < starts.len() ==> #[trigger] has_calls(starts, k, n)
    &&& forall|k: int| 0 < k < starts.len() ==> #[trigger] begins_idle(calls, starts, k)
    &&& forall|k: int, i: int|
        0 <= k < starts.len() && starts[k] < i < piece_end(starts, k, n)
            ==> #[trigger] finds_busy(calls, starts, k, i)
}

/// How a piece is timed: a call that is alone keeps its own time, and others are timed
/// together.
pub open spec fn is_piece(s: SeqView, calls: Seq<TimedCall>, lo: int, hi: int) -> bool {
    match s {
        SeqView::Single(call, dur) => hi == lo + 1 && calls[lo] == (call, dur),
        SeqView::Run(run) => {
            &&& hi > lo + 1
            &&& run.len() == hi - lo
            &&& forall|i: int| 0 <= i < run.len() ==> #[trigger] run[i] == calls[lo + i].0
        },
    }
}

/// Whether some pieces are those of `n` calls.
pub open spec fn are_pieces(
    seqs: Seq<SeqView>,
    calls: Seq<TimedCall>,
    starts: Seq<int>,
    n: int,
) -> bool {
    &&& seqs.len() == starts.len()
    &&& forall|k: int|
        0 <= k < starts.len() ==> is_piece(
            #[trigger] seqs[k],
            calls,
            starts[k],
            piece_end(starts, k, n),
        )
}

/// Where the runs of the first `n` calls begin.
pub open spec fn starts_of(calls: Seq<TimedCall>, n: int) -> Seq<int>
    decreases n,
{
    if n <= 0 {
        seq![]
    } else if starts_run(calls, n - 1) {
        starts_of(calls, n - 1).push(n - 1)
    } else {
        starts_of(calls, n - 1)
    }
}

/// Whether the runs of the first `n` calls are the pieces that begin at the given places.
pub open spec fn cuts(calls: Seq<TimedCall>, starts: Seq<int>, n: int) -> bool {
    &&& runs(calls, n).len() == starts.len()
    &&& forall|k: int| 0 <= k < starts.len() ==> #[trigger] is_cut(calls, starts, k, n)
}

/// Whether run `k` of the first `n` calls is the piece that begins at the given place.
pub open spec fn is_cut(calls: Seq<TimedCall>, starts: Seq<int>, k: int, n: int) -> bool {
    runs(calls, n)[k] == calls.subrange(starts[k], piece_end(starts, k, n))
}

/// The runs of some calls are cut where the stream runs out of work.
pub proof fn lemma_starts(calls: Seq<TimedCall>, n: int)
    requires
        0 <= n <= calls.len(),
    ensures
        cut_when_idle(calls, starts_of(calls, n), n),
        n > 0 ==> end_after(calls, n - 1) == busy_until(calls, starts_of(calls, n).last(), n),
        cuts(calls, starts_of(calls, n), n),
    decreases n,
{
    if n > 0 {
        let before = starts_of(calls, n - 1);
        let after = starts_of(calls, n);
        lemma_starts(calls, n - 1);
        if starts_run(calls, n - 1) {
            assert(total_micros(calls, n - 1, n - 1) == 0);
            lemma_new_piece(calls, before, n);
        } else {
            assert(has_calls(before, before.len() - 1, n - 1));
            lemma_longer_piece(calls, before, n);
        }
    }
}

/// A call that finds the stream idle begins a piece.
proof fn lemma_new_piece(calls: Seq<TimedCall>, before: Seq<int>, n: int)
    requires
        0 < n <= calls.len(),
        cut_when_idle(calls, before, n - 1),
        cuts(calls, before, n - 1),
        starts_run(calls, n - 1),
        n > 1 ==> end_after(calls, n - 2) == busy_until(calls, before.last(), n - 1),
    ensures
        cut_when_idle(calls, before.push(n - 1), n),
        cuts(calls, before.push(n - 1), n),
{
    let after = before.push(n - 1);
    let i = n - 1;
    let r0 = runs(calls, n - 1);
    let r1 = runs(calls, n);
    assert forall|k: int| 0 <= k < after.len() implies #[trigger] has_calls(after, k, n) by {
        if k < before.len() {
            assert(has_calls(before, k, n - 1));
        }
    }
    assert forall|k: int| 0 < k < after.len() implies #[trigger] begins_idle(calls, after, k) by {
        if k < before.len() {
            assert(begins_idle(calls, before, k));
        }
    }
    assert forall|k: int, j: int|
        0 <= k < after.len() && after[k] < j < piece_end(after, k, n) implies #[trigger] finds_busy(
        calls,
        after,
        k,
        j,
    ) by {
        if k < before.len() {
            assert(finds_busy(calls, before, k, j));
        }
    }
    assert forall|k: int| 0 <= k < after.len() implies #[trigger] is_cut(calls, after, k, n) by {
        if k < before.len() {
            assert(is_cut(calls, before, k, n - 1));
            assert(r1[k] == r0[k]);
        } else {
            assert(calls.subrange(i, n) =~= seq![calls[i]]);
        }
    }
}

/// A call that finds the stream busy belongs to the piece before it.
proof fn lemma_longer_piece(calls: Seq<TimedCall>, starts: Seq<int>, n: int)
    requires
        1 < n <= calls.len(),
        cut_when_idle(calls, starts, n - 1),
        cuts(calls, starts, n - 1),
        !starts_run(calls, n - 1),
        end_after(calls, n - 2) == busy_until(calls, starts.last(), n - 1),
    ensures
        cut_when_idle(calls, starts, n),
        cuts(calls, starts, n),
{
    let i = n - 1;
    let last = starts.len() - 1;
    let r0 = runs(calls, n - 1);
    let r1 = runs(calls, n);
    assert(has_calls(starts, last, n - 1));
    assert forall|k: int| 0 <= k < starts.len() implies #[trigger] has_calls(starts, k, n) by {
        assert(has_calls(starts, k, n - 1));
    }
    assert forall|k: int, j: int|
        0 <= k < starts.len() && starts[k] < j < piece_end(starts, k, n) implies #[trigger] finds_busy(
        calls,
        starts,
        k,
        j,
    ) by {
        if k < last || j < n - 1 {
            assert(j < piece_end(starts, k, n - 1));
            assert(finds_busy(calls, starts, k, j));
        }
    }
    assert forall|k: int| 0 <= k < starts.len() implies #[trigger] is_cut(calls, starts, k, n) by {
        assert(is_cut(calls, starts, k, n - 1));
        if k < last {
            assert(r1[k] == r0[k]);
        } else {
            assert(r1[k] == r0[k].push(calls[i]));
            assert(calls.subrange(starts[last], n) =~= calls.subrange(starts[last], n - 1).push(
                calls[i],
            ));
        }
    }
}

/// Buffered calls are cut exactly where the stream runs out of work: the calls of a piece
/// run back to back from the time at which its first call was issued, and the next piece
/// begins with the first call that was issued after they ended. No call is lost, and the
/// order stays.
pub proof fn law_runs_back_to_back(calls: Seq<TimedCall>) -> (starts: Seq<int>)
    ensures
        cut_when_idle(calls, starts, calls.len() as int),
        are_pieces(split(calls, false), calls, starts, calls.len() as int),
{
    let n = calls.len() as int;
    let starts = starts_of(calls, n);
    lemma_starts(calls, n);
    let seqs = split(calls, false);
    assert forall|k: int| 0 <= k < starts.len() implies is_piece(
        #[trigger] seqs[k],
        calls,
        starts[k],
        piece_end(starts, k, n),
    ) by {
        let part = calls.subrange(starts[k], piece_end(starts, k, n));
        assert(has_calls(starts, k, n));
        assert(is_cut(calls, starts, k, n));
        assert(seqs[k] == seq_of(part));
        if part.len() == 1 {
            assert(part[0] == calls[starts[k]]);
        }
    }
    starts
}

/// There is one way to cut calls where the stream runs out of work.
pub proof fn law_cut_is_unique(calls: Seq<TimedCall>, a: Seq<int>, b: Seq<int>, n: int)
    requires
        0 <= n <= calls.len(),
        cut_when_idle(calls, a, n),
        cut_when_idle(calls, b, n),
    ensures
        a == b,
{
    lemma_same_cut(calls, a, b, n, a.len() as int);
    lemma_same_cut(calls, b, a, n, b.len() as int);
    assert(a =~= b);
}

proof fn lemma_same_cut(calls: Seq<TimedCall>, a: Seq<int>, b: Seq<int>, n: int, m: int)
    requires
        0 <= n <= calls.len(),
        cut_when_idle(calls, a, n),
        cut_when_idle(calls, b, n),
        0 <= m <= a.len(),
    ensures
        m <= b.len(),
        forall|k: int| 0 <= k < m ==> #[trigger] a[k] == b[k],
    decreases m,
{
    if m > 0 {
        lemma_same_cut(calls, a, b, n, m - 1);
        let k = m - 1;
        if k > 0 {
            assert(a[k - 1] == b[k - 1]);
            assert(has_calls(a, k - 1, n));
            assert(has_calls(a, k, n));
            assert(has_calls(b, k - 1, n));
            assert(begins_idle(calls, a, k));
            if piece_end(b, k - 1, n) > a[k] {
                assert(finds_busy(calls, b, k - 1, a[k]));
            } else if piece_end(b, k - 1, n) < a[k] {
                assert(begins_idle(calls, b, k));
                assert(finds_busy(calls, a, k - 1, b[k]));
            }
        }
    }
}

/// Where every call keeps its own time, each is a piece of its own.
pub proof fn law_single_calls_apart(calls: Seq<TimedCall>)
    ensures
        split(calls, true).len() == calls.len(),
        forall|i: int|
            0 <= i < calls.len() ==> #[trigger] split(calls, true)[i] == SeqView::Single(
                calls[i].0,
                calls[i].1,
            ),
{
}

/// What the calls from `lo` up to `hi` are.
pub open spec fn infos_between(calls: Seq<TimedCall>, lo: int, hi: int) -> Seq<CallView> {
    Seq::new((hi - lo) as nat, |i: int| calls[lo + i].0.info@)
}

/// Whether piece `k` has the times that are given for it: the call's own time where it is
/// alone, and those of the whole run otherwise.
pub open spec fn piece_timed(
    times: TorchTimes,
    calls: Seq<TimedCall>,
    durs: Seq<Duration>,
    starts: Seq<int>,
    k: int,
) -> bool {
    let lo = starts[k];
    let hi = piece_end(starts, k, calls.len() as int);
    if hi == lo + 1 {
        durs[lo] == calls[lo].1
    } else {
        match times.sequence_answer(infos_between(calls, lo, hi)) {
            Some(l) => l.len() >= hi - lo && forall|i: int|
                lo <= i < hi ==> #[trigger] durs[i] == l[i - lo],
            None => false,
        }
    }
}

/// Whether some calls have the times that are given for them.
pub open spec fn times_given(
    times: TorchTimes,
    calls: Seq<TimedCall>,
    single: bool,
    starts: Seq<int>,
    durs: Seq<Duration>,
) -> bool {
    &&& durs.len() == calls.len()
    &&& if single {
        forall|i: int| 0 <= i < calls.len() ==> #[trigger] durs[i] == calls[i].1
    } else {
        &&& cut_when_idle(calls, starts, calls.len() as int)
        &&& forall|k: int|
            0 <= k < starts.len() ==> #[trigger] piece_timed(times, calls, durs, starts, k)
    }
}

/// Whether event `at` of a stream is the computation of a call: it belongs to the process
/// that made the call, takes the given time, and waits for the event before it.
pub open spec fn is_computation(
    q: Seq<OpView>,
    events: Seq<EventId>,
    at: int,
    call: TorchCall,
    dur: Duration,
) -> bool {
    &&& events[at] < q.len()
    &&& q[events[at] as int] == OpView::Add {
        depends_on: if at > 0 {
            seq![Some(events[at - 1])]
        } else {
            seq![]
        },
        action: Some(
            Action::Computation(
                NodeId(call.id.host),
                (dur.nanos / 1000) as i64,
                ComputeMeta::Torch(call),
            ),
        ),
        time: call.time,
    }
}

/// Whether the events of a stream are those it had, and behind them one computation for
/// each call that was buffered on it, in order.
pub open spec fn computed(
    q: Seq<OpView>,
    stream: StreamView,
    durs: Seq<Duration>,
    events: Seq<EventId>,
) -> bool {
    let old = stream.events.len() as int;
    &&& durs.len() == stream.buffered.len()
    &&& events.len() == old + durs.len()
    &&& forall|i: int| 0 <= i < old ==> #[trigger] events[i] == stream.events[i]
    &&& forall|i: int|
        0 <= i < durs.len() ==> #[trigger] is_computation(
            q,
            events,
            old + i,
            stream.buffered[i].0,
            durs[i],
        )
}

/// Whether all that was buffered on a stream has become events, with the times that are
/// given for it.
pub open spec fn worked_off(
    core: CoreView,
    name: StreamName,
    q: Seq<OpView>,
    events: Seq<EventId>,
) -> bool {
    exists|starts: Seq<int>, durs: Seq<Duration>|
        #[trigger] times_given(
            core.times,
            core.stream(name).buffered,
            core.single,
            starts,
            durs,
        ) && computed(q, core.stream(name), durs, events)
}

spec fn piece_begin(starts: Seq<int>, k: int, n: int) -> int {
    if k < starts.len() {
        starts[k]
    } else {
        n
    }
}

/// The calls of all pieces are the calls, with the times given for them.
proof fn lemma_pieces_timed(
    times: TorchTimes,
    calls: Seq<TimedCall>,
    seqs: Seq<SeqView>,
    starts: Seq<int>,
    k: int,
)
    requires
        cut_when_idle(calls, starts, calls.len() as int),
        are_pieces(seqs, calls, starts, calls.len() as int),
        0 <= k <= starts.len(),
    ensures
        timed_all(times, seqs, k).len() == piece_begin(starts, k, calls.len() as int),
        forall|i: int|
            0 <= i < timed_all(times, seqs, k).len() ==> #[trigger] timed_all(times, seqs, k)[i].0
                == calls[i].0,
        forall|j: int|
            0 <= j < k ==> #[trigger] has_piece(
                timed_all(times, seqs, k),
                timed(times, seqs[j]),
                starts[j],
            ),
    decreases k,
{
    let n = calls.len() as int;
    if k > 0 {
        lemma_pieces_timed(times, calls, seqs, starts, k - 1);
        let before = timed_all(times, seqs, k - 1);
        let after = timed_all(times, seqs, k);
        let part = timed(times, seqs[k - 1]);
        let lo = starts[k - 1];
        assert(has_calls(starts, k - 1, n));
        assert(is_piece(seqs[k - 1], calls, lo, piece_end(starts, k - 1, n)));
        assert(part.len() == piece_end(starts, k - 1, n) - lo);
        assert forall|i: int| 0 <= i < part.len() implies part[i].0 == calls[lo + i].0 by {
            match seqs[k - 1] {
                SeqView::Single(call, dur) => {},
                SeqView::Run(run) => {
                    assert(run[i] == calls[lo + i].0);
                },
            }
        }
        assert forall|i: int| 0 <= i < after.len() implies #[trigger] after[i].0
            == calls[i].0 by {
            if i < before.len() {
                assert(before[i].0 == calls[i].0);
            } else {
                assert(part[i - lo].0 == calls[i].0);
            }
        }
        assert forall|j: int| 0 <= j < k implies #[trigger] has_piece(
            after,
            timed(times, seqs[j]),
            starts[j],
        ) by {
            if j < k - 1 {
                assert(has_piece(before, timed(times, seqs[j]), starts[j]));
            }
        }
    }
}

spec fn has_piece(all: Seq<TimedCall>, part: Seq<TimedCall>, lo: int) -> bool {
    &&& 0 <= lo
    &&& lo + part.len() <= all.len()
    &&& forall|i: int| 0 <= i < part.len() ==> all[lo + i] == #[trigger] part[i]
}

proof fn lemma_singles_timed(times: TorchTimes, calls: Seq<TimedCall>, k: int)
    requires
        0 <= k <= calls.len(),
    ensures
        timed_all(times, split(calls, true), k) == calls.take(k),
    decreases k,
{
    if k > 0 {
        lemma_singles_timed(times, calls, k - 1);
        assert(calls.take(k) =~= calls.take(k - 1) + seq![calls[k - 1]]);
    }
}

/// The times that buffered calls are given.
proof fn lemma_times_given(core: CoreView, name: StreamName) -> (r: (Seq<int>, Seq<Duration>))
    requires
        core.ready(name),
    ensures
        times_given(core.times, core.stream(name).buffered, core.single, r.0, r.1),
        ({
            let calls = core.stream(name).buffered;
            let seqs = split(calls, core.single);
            let all = timed_all(core.times, seqs, seqs.len() as int);
            &&& all.len() == calls.len()
            &&& forall|i: int|
                0 <= i < all.len() ==> #[trigger] all[i] == (calls[i].0, r.1[i])
        }),
{
    let calls = core.stream(name).buffered;
    let n = calls.len() as int;
    let seqs = split(calls, core.single);
    let all = timed_all(core.times, seqs, seqs.len() as int);
    let durs = all.map_values(|c: TimedCall| c.1);
    if core.single {
        lemma_singles_timed(core.times, calls, n);
        assert(calls.take(n) =~= calls);
        (seq![], durs)
    } else {
        let starts = law_runs_back_to_back(calls);
        lemma_pieces_timed(core.times, calls, seqs, starts, starts.len() as int);
        assert forall|k: int| 0 <= k < starts.len() implies #[trigger] piece_timed(
            core.times,
            calls,
            durs,
            starts,
            k,
        ) by {
            let lo = starts[k];
            let hi = piece_end(starts, k, n);
            assert(has_calls(starts, k, n));
            assert(is_piece(seqs[k], calls, lo, hi));
            let part = timed(core.times, seqs[k]);
            assert(has_piece(all, part, lo));
            match seqs[k] {
                SeqView::Single(call, dur) => {
                    assert(all[lo + 0] == part[0]);
                },
                SeqView::Run(run) => {
                    assert(call_infos(run) =~= infos_between(calls, lo, hi));
                    let l = core.times.sequence_answer(call_infos(run))->0;
                    assert forall|i: int| lo <= i < hi implies #[trigger] durs[i] == l[i - lo] by {
                        assert(all[lo + (i - lo)] == part[i - lo]);
                    }
                },
            }
        }
        (starts, durs)
    }
}

/// Some operators behind the events of a stream.
proof fn lemma_run_computed(lane: Lane, stream: StreamView, durs: Seq<Duration>, calls: Seq<TimedCall>)
    requires
        lane.events == stream.events,
        lane.queue.len() + calls.len() <= usize::MAX,
        calls.len() == durs.len(),
        calls.len() <= stream.buffered.len(),
        forall|i: int|
            0 <= i < calls.len() ==> #[trigger] calls[i] == (stream.buffered[i].0, durs[i]),
    ensures
        ({
            let after = lane.run(calls);
            let old = stream.events.len() as int;
            &&& after.queue.len() == lane.queue.len() + calls.len()
            &&& forall|i: int|
                0 <= i < lane.queue.len() ==> #[trigger] after.queue[i] == lane.queue[i]
            &&& after.events.len() == old + calls.len()
            &&& forall|i: int| 0 <= i < old ==> #[trigger] after.events[i] == stream.events[i]
            &&& forall|i: int|
                0 <= i < calls.len() ==> #[trigger] after.events[old + i] == lane.queue.len() + i
            &&& forall|i: int|
                0 <= i < calls.len() ==> #[trigger] is_computation(
                    after.queue,
                    after.events,
                    old + i,
                    stream.buffered[i].0,
                    durs[i],
                )
        }),
    decreases calls.len(),
{
    if calls.len() > 0 {
        let front = calls.drop_last();
        let n = front.len() as int;
        let old = stream.events.len() as int;
        assert(forall|i: int| 0 <= i < front.len() ==> front[i] == calls[i]);
        lemma_run_computed(lane, stream, durs.drop_last(), front);
        let before = lane.run(front);
        let after = lane.run(calls);
        assert(calls[n] == (stream.buffered[n].0, durs[n]));
        assert(after.queue == before.queue.push(
            compute_op(before.events, calls.last().0, calls.last().1),
        ));
        assert(after.events == before.events.push(before.queue.len() as EventId));
        assert forall|i: int| 0 <= i < calls.len() implies #[trigger] is_computation(
            after.queue,
            after.events,
            old + i,
            stream.buffered[i].0,
            durs[i],
        ) by {
            if i < n {
                assert(is_computation(
                    before.queue,
                    before.events,
                    old + i,
                    stream.buffered[i].0,
                    durs.drop_last()[i],
                ));
            } else {
                assert(after.events[old + n] == lane.queue.len() + n);
                if old + n > 0 {
                    assert(before.events.last() == after.events[old + n - 1]);
                }
            }
        }
        assert forall|i: int| 0 <= i < calls.len() implies #[trigger] after.events[old + i]
            == lane.queue.len() + i by {
            if i < n {
                assert(before.events[old + i] == lane.queue.len() + i);
            }
        }
        assert forall|i: int| 0 <= i < lane.queue.len() implies #[trigger] after.queue[i]
            == lane.queue[i] by {
            assert(before.queue[i] == lane.queue[i]);
        }
        assert forall|i: int| 0 <= i < old implies #[trigger] after.events[i]
            == stream.events[i] by {
            assert(before.events[i] == stream.events[i]);
        }
    }
}

/// Once a stream is cleared, nothing is buffered on it: every call that was is a
/// computation behind the events that the stream had, with the time that is given for
/// it. Nothing else is added, and other streams stay as they are.
pub proof fn law_stream_worked_off(core: CoreView, name: StreamName)
    requires
        core.ready(name),
        core.queue.len() + core.stream(name).buffered.len() <= usize::MAX,
    ensures
        ({
            let after = core.flush(name);
            &&& after.streams.contains_key(name)
            &&& after.streams[name].buffered.len() == 0
            &&& after.queue.len() == core.queue.len() + core.stream(name).buffered.len()
            &&& forall|i: int|
                0 <= i < core.queue.len() ==> #[trigger] after.queue[i] == core.queue[i]
            &&& worked_off(core, name, after.queue, after.streams[name].events)
            &&& forall|other: StreamName|
                other != name ==> (#[trigger] after.streams.contains_key(other)
                    <==> core.streams.contains_key(other))
            &&& forall|other: StreamName|
                other != name && core.streams.contains_key(other)
                    ==> #[trigger] after.streams[other] == core.streams[other]
        }),
{
    let after = core.flush(name);
    let stream = core.stream(name);
    let seqs = split(stream.buffered, core.single);
    let all = timed_all(core.times, seqs, seqs.len() as int);
    let (starts, durs) = lemma_times_given(core, name);
    let lane = Lane { queue: core.queue, events: stream.events };
    lemma_run_computed(lane, stream, durs, all);
    assert(after.streams[name].events == lane.run(all).events);
    assert(computed(after.queue, stream, durs, after.streams[name].events));
}

/// Whether one event was added to a stream: behind all that was enqueued and buffered
/// there it waits for the event before it and for what it was told to wait for.
pub open spec fn event_added(
    core: CoreView,
    after: CoreView,
    name: StreamName,
    depends_on: Seq<Option<EventId>>,
    action: Option<Action>,
    time: i64,
) -> bool {
    let events = after.streams[name].events;
    let n = after.queue.len() as int;
    &&& after.streams.contains_key(name)
    &&& after.streams[name].buffered.len() == 0
    &&& n == core.queue.len() + core.stream(name).buffered.len() + 1
    &&& forall|i: int| 0 <= i < core.queue.len() ==> #[trigger] after.queue[i] == core.queue[i]
    &&& events.len() > 0
    &&& events.last() == n - 1
    &&& worked_off(core, name, after.queue, events.drop_last())
    &&& after.queue[n - 1] == OpView::Add {
        depends_on: depends_on + if events.len() > 1 {
            seq![Some(events[events.len() - 2])]
        } else {
            seq![]
        },
        action,
        time,
    }
    &&& others_kept(core, after, name)
}

/// Whether all streams but one stay as they are.
pub open spec fn others_kept(core: CoreView, after: CoreView, name: StreamName) -> bool {
    &&& forall|other: StreamName|
        other != name ==> (#[trigger] after.streams.contains_key(other)
            <==> core.streams.contains_key(other))
    &&& forall|other: StreamName|
        other != name && core.streams.contains_key(other) ==> #[trigger] after.streams[other]
            == core.streams[other]
}

proof fn lemma_computed_kept(
    q: Seq<OpView>,
    longer: Seq<OpView>,
    stream: StreamView,
    durs: Seq<Duration>,
    events: Seq<EventId>,
)
    requires
        computed(q, stream, durs, events),
        q.len() <= longer.len(),
        forall|i: int| 0 <= i < q.len() ==> #[trigger] longer[i] == q[i],
    ensures
        computed(longer, stream, durs, events),
{
    let old = stream.events.len() as int;
    assert forall|i: int| 0 <= i < durs.len() implies #[trigger] is_computation(
        longer,
        events,
        old + i,
        stream.buffered[i].0,
        durs[i],
    ) by {
        assert(is_computation(q, events, old + i, stream.buffered[i].0, durs[i]));
    }
}

/// What was worked off stays so when more is enqueued.
pub proof fn lemma_worked_off_kept(
    core: CoreView,
    name: StreamName,
    q: Seq<OpView>,
    longer: Seq<OpView>,
    events: Seq<EventId>,
)
    requires
        worked_off(core, name, q, events),
        q.len() <= longer.len(),
        forall|i: int| 0 <= i < q.len() ==> #[trigger] longer[i] == q[i],
    ensures
        worked_off(core, name, longer, events),
{
    let stream = core.stream(name);
    let (starts, durs) = choose|starts: Seq<int>, durs: Seq<Duration>|
        #[trigger] times_given(core.times, stream.buffered, core.single, starts, durs) && computed(
            q,
            stream,
            durs,
            events,
        );
    lemma_computed_kept(q, longer, stream, durs, events);
    assert(times_given(core.times, stream.buffered, core.single, starts, durs));
}

/// An event that is added to a stream comes behind all that was enqueued and buffered
/// there, and is the last of the stream.
pub proof fn law_event_added(
    core: CoreView,
    name: StreamName,
    depends_on: Seq<Option<EventId>>,
    action: Option<Action>,
    time: i64,
)
    requires
        core.ready(name),
        core.queue.len() + core.stream(name).buffered.len() < usize::MAX,
    ensures
        event_added(
            core,
            core.event(name, depends_on, action, time),
            name,
            depends_on,
            action,
            time,
        ),
        core.event_id(name) == core.event(name, depends_on, action, time).queue.len() - 1,
{
    law_stream_worked_off(core, name);
    let clear = core.flush(name);
    let after = core.event(name, depends_on, action, time);
    let events = after.streams[name].events;
    assert(events.drop_last() =~= clear.streams[name].events);
    assert forall|i: int| 0 <= i < core.queue.len() implies #[trigger] after.queue[i]
        == core.queue[i] by {
        assert(clear.queue[i] == core.queue[i]);
    }
    lemma_worked_off_kept(core, name, clear.queue, after.queue, events.drop_last());
    assert forall|other: StreamName| other != name && core.streams.contains_key(
        other,
    ) implies #[trigger] after.streams[other] == core.streams[other] by {
        assert(clear.streams[other] == core.streams[other]);
    }
}

/// Whether some streams have nothing buffered any longer: every call that was is a
/// computation, and all other streams stay as they are.
pub open spec fn all_worked_off(core: CoreView, after: CoreView, names: Seq<StreamName>) -> bool {
    &&& core.queue.len() <= after.queue.len()
    &&& forall|i: int| 0 <= i < core.queue.len() ==> #[trigger] after.queue[i] == core.queue[i]
    &&& forall|k: int|
        0 <= k < names.len() ==> #[trigger] after.streams.contains_key(names[k])
            && after.streams[names[k]].buffered.len() == 0 && worked_off(
            core,
            names[k],
            after.queue,
            after.streams[names[k]].events,
        )
    &&& forall|other: StreamName|
        !names.contains(other) ==> #[trigger] after.stream(other) == core.stream(other)
}

/// Whether the same times are given for runs.
spec fn same_answers(a: TorchTimes, b: TorchTimes) -> bool {
    forall|calls: Seq<CallView>| #[trigger] a.sequence_answer(calls) == b.sequence_answer(calls)
}

proof fn lemma_same_times_given(
    a: TorchTimes,
    b: TorchTimes,
    calls: Seq<TimedCall>,
    single: bool,
    starts: Seq<int>,
    durs: Seq<Duration>,
)
    requires
        same_answers(a, b),
        times_given(a, calls, single, starts, durs),
    ensures
        times_given(b, calls, single, starts, durs),
{
    if !single {
        assert forall|k: int| 0 <= k < starts.len() implies #[trigger] piece_timed(
            b,
            calls,
            durs,
            starts,
            k,
        ) by {
            assert(piece_timed(a, calls, durs, starts, k));
            let infos = infos_between(calls, starts[k], piece_end(starts, k, calls.len() as int));
            assert(a.sequence_answer(infos) == b.sequence_answer(infos));
        }
    }
}

proof fn lemma_flush_answers(core: CoreView, name: StreamName)
    ensures
        same_answers(core.flush(name).times, core.times),
        core.flush(name).single == core.single,
{
    let seqs = split(core.stream(name).buffered, core.single);
    lemma_times_after(core.times, seqs, seqs.len() as int);
}

proof fn lemma_flush_grows(core: CoreView, name: StreamName)
    requires
        core.ready(name),
    ensures
        core.flush(name).queue.len() == core.queue.len() + core.stream(name).buffered.len(),
{
    let seqs = split(core.stream(name).buffered, core.single);
    let all = timed_all(core.times, seqs, seqs.len() as int);
    let r = lemma_times_given(core, name);
    lemma_run_grows(Lane { queue: core.queue, events: core.stream(name).events }, all);
}

proof fn lemma_run_grows(lane: Lane, calls: Seq<TimedCall>)
    ensures
        lane.run(calls).queue.len() == lane.queue.len() + calls.len(),
    decreases calls.len(),
{
    if calls.len() > 0 {
        lemma_run_grows(lane, calls.drop_last());
    }
}

/// Clearing some streams works off all that was buffered on them.
proof fn lemma_all_worked_off(core: CoreView, names: Seq<StreamName>)
    requires
        names.no_duplicates(),
        forall|k: int| 0 <= k < names.len() ==> core.ready(#[trigger] names[k]),
        core.flush_all(names).queue.len() <= usize::MAX,
    ensures
        all_worked_off(core, core.flush_all(names), names),
        same_answers(core.flush_all(names).times, core.times),
        core.flush_all(names).single == core.single,
        forall|other: StreamName|
            core.ready(other) ==> #[trigger] core.flush_all(names).ready(other),
    decreases names.len(),
{
    if names.len() > 0 {
        let front = names.drop_last();
        let last = names.last();
        let before = core.flush_all(front);
        let after = core.flush_all(names);
        assert(forall|k: int| 0 <= k < front.len() ==> front[k] == names[k]);
        lemma_flush_all_ready(core, front);
        assert(core.ready(names[names.len() - 1]));
        lemma_flush_grows(before, last);
        lemma_all_worked_off(core, front);
        assert(before.ready(last));
        assert(!front.contains(last)) by {
            if front.contains(last) {
                let k = choose|k: int| 0 <= k < front.len() && front[k] == last;
                assert(names[k] == names[names.len() - 1]);
            }
        }
        law_stream_worked_off(before, last);
        lemma_flush_answers(before, last);
        assert(before.stream(last) == core.stream(last));
        assert forall|calls: Seq<CallView>| #[trigger]
            after.times.sequence_answer(calls) == core.times.sequence_answer(calls) by {
            assert(before.times.sequence_answer(calls) == core.times.sequence_answer(calls));
        }
        let (starts, durs) = choose|starts: Seq<int>, durs: Seq<Duration>|
            #[trigger] times_given(
                before.times,
                before.stream(last).buffered,
                before.single,
                starts,
                durs,
            ) && computed(after.queue, before.stream(last), durs, after.streams[last].events);
        lemma_same_times_given(
            before.times,
            core.times,
            core.stream(last).buffered,
            core.single,
            starts,
            durs,
        );
        assert(worked_off(core, last, after.queue, after.streams[last].events));
        assert forall|i: int| 0 <= i < core.queue.len() implies #[trigger] after.queue[i]
            == core.queue[i] by {
            assert(before.queue[i] == core.queue[i]);
        }
        assert forall|k: int| 0 <= k < names.len() implies #[trigger] after.streams.contains_key(
            names[k],
        ) && after.streams[names[k]].buffered.len() == 0 && worked_off(
            core,
            names[k],
            after.queue,
            after.streams[names[k]].events,
        ) by {
            if k < front.len() {
                assert(names[k] != last) by {
                    assert(names[k] != names[names.len() - 1]);
                }
                assert(before.streams.contains_key(front[k]));
                assert(after.streams[names[k]] == before.streams[names[k]]);
                lemma_worked_off_kept(
                    core,
                    names[k],
                    before.queue,
                    after.queue,
                    after.streams[names[k]].events,
                );
            }
        }
        assert forall|other: StreamName| !names.contains(other) implies #[trigger] after.stream(
            other,
        ) == core.stream(other) by {
            assert(other != last) by {
                assert(names[names.len() - 1] == last);
            }
            assert(!front.contains(other)) by {
                if front.contains(other) {
                    let k = choose|k: int| 0 <= k < front.len() && front[k] == other;
                    assert(names[k] == other);
                }
            }
            assert(before.stream(other) == core.stream(other));
            assert(after.streams.contains_key(other) <==> before.streams.contains_key(other));
        }
        lemma_flush_all_ready(core, names);
    }
}

proof fn lemma_flush_all_ready(core: CoreView, names: Seq<StreamName>)
    ensures
        forall|other: StreamName|
            core.ready(other) ==> #[trigger] core.flush_all(names).ready(other),
    decreases names.len(),
{
    if names.len() > 0 {
        lemma_flush_all_ready(core, names.drop_last());
        let before = core.flush_all(names.drop_last());
        assert forall|other: StreamName| core.ready(other) implies #[trigger] core.flush_all(
            names,
        ).ready(other) by {
            assert(before.ready(other));
            lemma_flush_ready(before, names.last(), other);
        }
    }
}

/// The last events of some streams once they are cleared.
proof fn lemma_last_events(core: CoreView, names: Seq<StreamName>)
    requires
        names.no_duplicates(),
        forall|k: int| 0 <= k < names.len() ==> core.ready(#[trigger] names[k]),
        core.flush_all(names).queue.len() <= usize::MAX,
    ensures
        forall|d: Option<EventId>| #[trigger]
            core.last_events(names).contains(d) <==> ends_one(core.flush_all(names), names, d),
    decreases names.len(),
{
    if names.len() > 0 {
        let front = names.drop_last();
        let last = names.last();
        let n = names.len() - 1;
        let before = core.flush_all(front);
        let after = core.flush_all(names);
        assert(forall|k: int| 0 <= k < front.len() ==> front[k] == names[k]);
        lemma_flush_all_ready(core, front);
        assert(core.ready(names[n]));
        lemma_flush_grows(before, last);
        lemma_last_events(core, front);
        lemma_all_worked_off(core, front);
        law_stream_worked_off(before, last);
        let old = core.last_events(front);
        let more = after_last(after.stream(last).events);
        assert forall|d: Option<EventId>| #[trigger]
            core.last_events(names).contains(d) <==> ends_one(after, names, d) by {
            lemma_either(old, more, d);
            assert(old.contains(d) <==> ends_one(before, front, d));
            if ends_one(before, front, d) {
                let k = choose|k: int| 0 <= k < front.len() && #[trigger] ends(before, front[k], d);
                assert(names[k] != names[n]);
                assert(before.streams.contains_key(front[k]));
                assert(ends(after, names[k], d));
            }
            if more.contains(d) {
                assert(ends(after, names[n], d));
            }
            if ends_one(after, names, d) {
                let k = choose|k: int| 0 <= k < names.len() && #[trigger] ends(after, names[k], d);
                if k < n {
                    assert(names[k] != names[n]);
                    assert(before.streams.contains_key(front[k]));
                    assert(ends(before, front[k], d));
                } else {
                    assert(more[0] == d);
                }
            }
        }
    }
}

proof fn lemma_either(a: Seq<Option<EventId>>, b: Seq<Option<EventId>>, d: Option<EventId>)
    ensures
        (a + b).contains(d) <==> a.contains(d) || b.contains(d),
{
    let both = a + b;
    if a.contains(d) {
        let i = choose|i: int| 0 <= i < a.len() && a[i] == d;
        assert(both[i] == d);
    }
    if b.contains(d) {
        let i = choose|i: int| 0 <= i < b.len() && b[i] == d;
        assert(both[a.len() + i] == d);
    }
    if both.contains(d) {
        let i = choose|i: int| 0 <= i < both.len() && both[i] == d;
        if i < a.len() {
            assert(a[i] == d);
        } else {
            assert(b[i - a.len()] == d);
        }
    }
}

/// Whether an event is the last of a stream.
pub open spec fn ends(core: CoreView, name: StreamName, d: Option<EventId>) -> bool {
    core.stream(name).events.len() > 0 && d == Some(core.stream(name).events.last())
}

/// Whether an event is the last of one of some streams.
pub open spec fn ends_one(core: CoreView, names: Seq<StreamName>, d: Option<EventId>) -> bool {
    exists|k: int| 0 <= k < names.len() && #[trigger] ends(core, names[k], d)
}

/// Whether the streams are listed in the order in which they came up, each once.
pub open spec fn streams_listed(core: CoreView) -> bool {
    &&& core.order.no_duplicates()
    &&& forall|name: StreamName| #[trigger]
        core.order.contains(name) <==> core.streams.contains_key(name)
}

/// Whether a stream belongs to a process and a device.
pub open spec fn on_device(name: StreamName, host: (Seq<char>, u32), device: i32) -> bool {
    name.0 == host && name.1.device == device
}

/// Once a device is cleared for a process, none of its streams there has anything
/// buffered: every call that was is a computation. What is then waited for is the last
/// event of each of these streams, and nothing else.
pub proof fn law_device_worked_off(core: CoreView, host: (Seq<char>, u32), device: i32)
    requires
        streams_listed(core),
        forall|name: StreamName|
            core.streams.contains_key(name) && on_device(name, host, device)
                ==> #[trigger] core.ready(name),
        core.flush_all(core.device_streams(host, device)).queue.len() <= usize::MAX,
    ensures
        ({
            let names = core.device_streams(host, device);
            let after = core.flush_all(names);
            let waited = core.last_events(names);
            &&& core.queue.len() <= after.queue.len()
            &&& forall|i: int|
                0 <= i < core.queue.len() ==> #[trigger] after.queue[i] == core.queue[i]
            &&& forall|name: StreamName| #[trigger]
                after.streams.contains_key(name) && on_device(name, host, device) ==> {
                    &&& after.streams[name].buffered.len() == 0
                    &&& worked_off(core, name, after.queue, after.streams[name].events)
                    &&& after.streams[name].events.len() > 0 ==> waited.contains(
                        Some(after.streams[name].events.last()),
                    )
                }
            &&& forall|d: Option<EventId>| #[trigger]
                waited.contains(d) ==> exists|name: StreamName|
                    on_device(name, host, device) && #[trigger] ends(after, name, d)
            &&& forall|name: StreamName|
                !on_device(name, host, device) ==> #[trigger] after.stream(name) == core.stream(
                    name,
                )
            &&& forall|name: StreamName| #[trigger]
                after.streams.contains_key(name) <==> core.streams.contains_key(name)
        }),
{
    let wanted = of_device(host, device);
    let names = core.device_streams(host, device);
    let after = core.flush_all(names);
    let waited = core.last_events(names);
    lemma_filtered(core.order, wanted);
    assert forall|k: int| 0 <= k < names.len() implies core.ready(#[trigger] names[k]) by {
        assert(names.contains(names[k]));
        assert(core.order.contains(names[k]));
    }
    lemma_all_worked_off(core, names);
    lemma_last_events(core, names);
    lemma_flush_all_streams(core, names);
    assert forall|name: StreamName| #[trigger]
        after.streams.contains_key(name) && on_device(name, host, device) implies {
        &&& after.streams[name].buffered.len() == 0
        &&& worked_off(core, name, after.queue, after.streams[name].events)
        &&& after.streams[name].events.len() > 0 ==> waited.contains(
            Some(after.streams[name].events.last()),
        )
    } by {
        assert(core.order.contains(name));
        assert(names.contains(name));
        let k = choose|k: int| 0 <= k < names.len() && names[k] == name;
        assert(after.streams.contains_key(names[k]));
        if after.streams[name].events.len() > 0 {
            let d = Some(after.streams[name].events.last());
            assert(ends(after, names[k], d));
            assert(ends_one(after, names, d));
        }
    }
    assert forall|d: Option<EventId>| #[trigger] waited.contains(d) implies exists|
        name: StreamName,
    | on_device(name, host, device) && #[trigger] ends(after, name, d) by {
        assert(ends_one(after, names, d));
        let k = choose|k: int| 0 <= k < names.len() && #[trigger] ends(after, names[k], d);
        assert(names.contains(names[k]));
        assert(on_device(names[k], host, device));
    }
    assert forall|name: StreamName| !on_device(name, host, device) implies #[trigger] after.stream(
        name,
    ) == core.stream(name) by {
        assert(!names.contains(name));
    }
}

/// Clearing streams that are there opens no others.
proof fn lemma_flush_all_streams(core: CoreView, names: Seq<StreamName>)
    requires
        forall|k: int| 0 <= k < names.len() ==> core.streams.contains_key(#[trigger] names[k]),
    ensures
        forall|name: StreamName| #[trigger]
            core.flush_all(names).streams.contains_key(name) <==> core.streams.contains_key(name),
    decreases names.len(),
{
    if names.len() > 0 {
        let front = names.drop_last();
        assert(forall|k: int| 0 <= k < front.len() ==> front[k] == names[k]);
        lemma_flush_all_streams(core, front);
        let before = core.flush_all(front);
        let after = core.flush_all(names);
        assert(core.streams.contains_key(names[names.len() - 1]));
        assert forall|name: StreamName| #[trigger]
            after.streams.contains_key(name) <==> core.streams.contains_key(name) by {
            assert(before.streams.contains_key(name) <==> core.streams.contains_key(name));
            assert(after == before.flush(names.last()));
        }
    }
}

/// What is picked out of a list is what is wanted of it, each once where it is listed once.
pub proof fn lemma_filtered(all: Seq<StreamName>, wanted: spec_fn(StreamName) -> bool)
    ensures
        forall|x: StreamName| #[trigger]
            all.filter(wanted).contains(x) <==> all.contains(x) && wanted(x),
        all.no_duplicates() ==> all.filter(wanted).no_duplicates(),
        forall|k: int|
            0 <= k < all.filter(wanted).len() ==> all.contains(#[trigger] all.filter(wanted)[k]),
    decreases all.len(),
{
    reveal(Seq::filter);
    let part = all.filter(wanted);
    if all.len() > 0 {
        let front = all.drop_last();
        let last = all.last();
        lemma_filtered(front, wanted);
        let rest = front.filter(wanted);
        assert forall|x: StreamName| #[trigger] part.contains(x) <==> all.contains(x) && wanted(
            x,
        ) by {
            assert(rest.contains(x) <==> front.contains(x) && wanted(x));
            if front.contains(x) {
                let i = choose|i: int| 0 <= i < front.len() && front[i] == x;
                assert(all[i] == x);
            }
            if all.contains(x) && x != last {
                let i = choose|i: int| 0 <= i < all.len() && all[i] == x;
                assert(front[i] == x);
            }
            if rest.contains(x) {
                let i = choose|i: int| 0 <= i < rest.len() && rest[i] == x;
                assert(part[i] == x);
            }
            assert(all[all.len() - 1] == last);
            if wanted(last) {
                assert(part[rest.len() as int] == last);
                if part.contains(x) && x != last {
                    let i = choose|i: int| 0 <= i < part.len() && part[i] == x;
                    assert(rest[i] == x);
                }
            }
        }
        if all.no_duplicates() {
            assert(front.no_duplicates()) by {
                assert forall|i: int, j: int|
                    0 <= i < front.len() && 0 <= j < front.len() && i != j implies front[i]
                    != front[j] by {
                    assert(all[i] != all[j]);
                }
            }
            assert forall|i: int, j: int|
                0 <= i < part.len() && 0 <= j < part.len() && i != j implies part[i] != part[j] by {
                if wanted(last) {
                    assert forall|m: int| 0 <= m < rest.len() implies rest[m] != last by {
                        assert(rest.contains(rest[m]));
                        let l = choose|l: int| 0 <= l < front.len() && front[l] == rest[m];
                        assert(all[l] != all[all.len() - 1]);
                    }
                }
            }
        }
    }
    assert forall|k: int| 0 <= k < part.len() implies all.contains(#[trigger] part[k]) by {
        assert(part.contains(part[k]));
    }
}

} // verus!
