//! What is told of the matching of collectives, and what turning buffered calls into events
//! does to the known times.

use crate::cuda_call::CudaCallMsg;
use crate::json::{tree_text, JsonNumber, JsonTree};
use crate::simulator::collectives::{
    first_joinable, law_oldest_joinable, NcclCollectiveSignature, Participant,
};
use crate::simulator::ranks::{ascending, ranks_below};
use crate::simulator::streams::{
    lemma_times_after, split, times_after, CoreView, SeqView, StreamName,
};
use crate::simulator::trace::{
    asks_for_trace, event_tree, lower_text, number_tree, ranks_tree, signature_tree, stream_tree,
    MatchView,
};
use crate::simulator::{participant_of, SimView};
use crate::text::hex_text;
use crate::torch_call::{call_infos, CallView};
use crate::torch_estimate::TorchTimes;
use vstd::prelude::*;

verus! {

/// Whether an object has an entry.
pub open spec fn tells(t: JsonTree, name: Seq<char>, value: JsonTree) -> bool {
    t matches JsonTree::Object(m) && m.contains((name, value))
}

proof fn lemma_tells(m: Seq<(Seq<char>, JsonTree)>, i: int, name: Seq<char>, value: JsonTree)
    requires
        0 <= i < m.len(),
        m[i] == (name, value),
    ensures
        tells(JsonTree::Object(m), name, value),
{
}

/// A number is told as it is.
pub proof fn law_numbers_told(n: int)
    requires
        i64::MIN <= n <= u64::MAX,
    ensures
        match number_tree(n) {
            JsonTree::Number(JsonNumber::PosInt(x)) => x == n,
            JsonTree::Number(JsonNumber::NegInt(x)) => x == n && n < 0,
            _ => false,
        },
{
}

/// Some ranks are told one by one, in order.
pub proof fn law_ranks_told(ranks: Seq<i32>, i: int)
    ensures
        ranks_tree(ranks) is Array,
        ranks_tree(ranks)->Array_0.len() == ranks.len(),
        0 <= i < ranks.len() ==> ranks_tree(ranks)->Array_0[i] == number_tree(ranks[i] as int),
{
}

/// Every event of a collective's matching tells the communicator by the first eight bytes
/// of its identifier, the rank, the time and what is asked for.
pub proof fn law_events_tell_who(p: Participant, e: MatchView)
    ensures
        tells(event_tree(p, e), "comm_id"@, JsonTree::Text(hex_text(p.comm.id@.take(8)))),
        tells(event_tree(p, e), "rank"@, number_tree(p.comm.rank as int)),
        tells(event_tree(p, e), "curr_time"@, number_tree(p.curr_time as int)),
        tells(event_tree(p, e), "signature"@, signature_tree(p.signature)),
        !(e is Complete) ==> {
            &&& tells(event_tree(p, e), "host"@, JsonTree::Text(p.host.hostname@))
            &&& tells(event_tree(p, e), "pid"@, number_tree(p.host.pid as int))
            &&& tells(event_tree(p, e), "stream"@, stream_tree(p.stream))
        },
{
    let m = event_tree(p, e)->Object_0;
    let rank = number_tree(p.comm.rank as int);
    let time = number_tree(p.curr_time as int);
    let what = signature_tree(p.signature);
    let host = JsonTree::Text(p.host.hostname@);
    let pid = number_tree(p.host.pid as int);
    let stream = stream_tree(p.stream);
    lemma_tells(m, 1, "comm_id"@, JsonTree::Text(hex_text(p.comm.id@.take(8))));
    match e {
        MatchView::Arrive { .. } => {
            lemma_tells(m, 2, "rank"@, rank);
            lemma_tells(m, 3, "host"@, host);
            lemma_tells(m, 4, "pid"@, pid);
            lemma_tells(m, 5, "stream"@, stream);
            lemma_tells(m, 6, "curr_time"@, time);
            lemma_tells(m, 8, "signature"@, what);
        },
        MatchView::NewWaiting { .. } => {
            lemma_tells(m, 3, "rank"@, rank);
            lemma_tells(m, 4, "host"@, host);
            lemma_tells(m, 5, "pid"@, pid);
            lemma_tells(m, 6, "stream"@, stream);
            lemma_tells(m, 7, "curr_time"@, time);
            lemma_tells(m, 8, "signature"@, what);
        },
        MatchView::Join { .. } => {
            lemma_tells(m, 3, "rank"@, rank);
            lemma_tells(m, 4, "host"@, host);
            lemma_tells(m, 5, "pid"@, pid);
            lemma_tells(m, 6, "stream"@, stream);
            lemma_tells(m, 7, "curr_time"@, time);
            lemma_tells(m, 9, "signature"@, what);
        },
        MatchView::Complete { .. } => {
            lemma_tells(m, 3, "rank"@, rank);
            lemma_tells(m, 4, "curr_time"@, time);
            lemma_tells(m, 5, "signature"@, what);
        },
    }
}

/// Every event of a collective's matching tells what has happened, with all that belongs
/// to it.
pub proof fn law_events_tell_what(p: Participant, e: MatchView)
    ensures
        ({
            let t = event_tree(p, e);
            match e {
                MatchView::Arrive { queue_len } => {
                    &&& tells(t, "event"@, JsonTree::Text("arrive"@))
                    &&& tells(t, "queue_len"@, number_tree(queue_len as int))
                },
                MatchView::NewWaiting { sequence, waiting_for } => {
                    &&& tells(t, "event"@, JsonTree::Text("new_waiting"@))
                    &&& tells(t, "sequence"@, number_tree(sequence as int))
                    &&& tells(t, "waiting_for"@, ranks_tree(waiting_for))
                },
                MatchView::Join {
                    sequence,
                    waiting_index,
                    waiting_for_before,
                    waiting_for_after,
                    joined_ranks,
                } => {
                    &&& tells(t, "event"@, JsonTree::Text("join"@))
                    &&& tells(t, "sequence"@, number_tree(sequence as int))
                    &&& tells(t, "waiting_index"@, number_tree(waiting_index as int))
                    &&& tells(t, "waiting_for_before"@, ranks_tree(waiting_for_before))
                    &&& tells(t, "waiting_for_after"@, ranks_tree(waiting_for_after))
                    &&& tells(t, "joined_ranks"@, ranks_tree(joined_ranks))
                },
                MatchView::Complete { sequence, joined_ranks } => {
                    &&& tells(t, "event"@, JsonTree::Text("complete"@))
                    &&& tells(t, "sequence"@, number_tree(sequence as int))
                    &&& tells(t, "joined_ranks"@, ranks_tree(joined_ranks))
                },
            }
        }),
{
    let m = event_tree(p, e)->Object_0;
    match e {
        MatchView::Arrive { queue_len } => {
            lemma_tells(m, 0, "event"@, JsonTree::Text("arrive"@));
            lemma_tells(m, 7, "queue_len"@, number_tree(queue_len as int));
        },
        MatchView::NewWaiting { sequence, waiting_for } => {
            lemma_tells(m, 0, "event"@, JsonTree::Text("new_waiting"@));
            lemma_tells(m, 2, "sequence"@, number_tree(sequence as int));
            lemma_tells(m, 9, "waiting_for"@, ranks_tree(waiting_for));
        },
        MatchView::Join {
            sequence,
            waiting_index,
            waiting_for_before,
            waiting_for_after,
            joined_ranks,
        } => {
            lemma_tells(m, 0, "event"@, JsonTree::Text("join"@));
            lemma_tells(m, 2, "sequence"@, number_tree(sequence as int));
            lemma_tells(m, 8, "waiting_index"@, number_tree(waiting_index as int));
            lemma_tells(m, 10, "waiting_for_before"@, ranks_tree(waiting_for_before));
            lemma_tells(m, 11, "waiting_for_after"@, ranks_tree(waiting_for_after));
            lemma_tells(m, 12, "joined_ranks"@, ranks_tree(joined_ranks));
        },
        MatchView::Complete { sequence, joined_ranks } => {
            lemma_tells(m, 0, "event"@, JsonTree::Text("complete"@));
            lemma_tells(m, 2, "sequence"@, number_tree(sequence as int));
            lemma_tells(m, 6, "joined_ranks"@, ranks_tree(joined_ranks));
        },
    }
}

/// What is asked for is told by its name, with how much of what.
pub proof fn law_signatures_told(s: NcclCollectiveSignature)
    ensures
        ({
            let t = signature_tree(s);
            match s {
                NcclCollectiveSignature::Bcast { count, dtype, root } => {
                    &&& tells(t, "op"@, JsonTree::Text("bcast"@))
                    &&& tells(t, "count"@, number_tree(count as int))
                    &&& tells(t, "dtype"@, JsonTree::Text(dtype.text()))
                    &&& tells(t, "root"@, number_tree(root as int))
                },
                NcclCollectiveSignature::AllReduce { count, dtype, op } => {
                    &&& tells(t, "op"@, JsonTree::Text("all_reduce"@))
                    &&& tells(t, "count"@, number_tree(count as int))
                    &&& tells(t, "dtype"@, JsonTree::Text(dtype.text()))
                    &&& tells(t, "reduce_op"@, JsonTree::Text(op.text()))
                },
                NcclCollectiveSignature::AllGather { count, dtype } => {
                    &&& tells(t, "op"@, JsonTree::Text("all_gather"@))
                    &&& tells(t, "count"@, number_tree(count as int))
                    &&& tells(t, "dtype"@, JsonTree::Text(dtype.text()))
                },
                NcclCollectiveSignature::ReduceScatter { count, dtype, op } => {
                    &&& tells(t, "op"@, JsonTree::Text("reduce_scatter"@))
                    &&& tells(t, "count"@, number_tree(count as int))
                    &&& tells(t, "dtype"@, JsonTree::Text(dtype.text()))
                    &&& tells(t, "reduce_op"@, JsonTree::Text(op.text()))
                },
            }
        }),
{
    let m = signature_tree(s)->Object_0;
    match s {
        NcclCollectiveSignature::Bcast { count, dtype, root } => {
            lemma_tells(m, 0, "op"@, JsonTree::Text("bcast"@));
            lemma_tells(m, 1, "count"@, number_tree(count as int));
            lemma_tells(m, 2, "dtype"@, JsonTree::Text(dtype.text()));
            lemma_tells(m, 3, "root"@, number_tree(root as int));
        },
        NcclCollectiveSignature::AllReduce { count, dtype, op } => {
            lemma_tells(m, 0, "op"@, JsonTree::Text("all_reduce"@));
            lemma_tells(m, 1, "count"@, number_tree(count as int));
            lemma_tells(m, 2, "dtype"@, JsonTree::Text(dtype.text()));
            lemma_tells(m, 3, "reduce_op"@, JsonTree::Text(op.text()));
        },
        NcclCollectiveSignature::AllGather { count, dtype } => {
            lemma_tells(m, 0, "op"@, JsonTree::Text("all_gather"@));
            lemma_tells(m, 1, "count"@, number_tree(count as int));
            lemma_tells(m, 2, "dtype"@, JsonTree::Text(dtype.text()));
        },
        NcclCollectiveSignature::ReduceScatter { count, dtype, op } => {
            lemma_tells(m, 0, "op"@, JsonTree::Text("reduce_scatter"@));
            lemma_tells(m, 1, "count"@, number_tree(count as int));
            lemma_tells(m, 2, "dtype"@, JsonTree::Text(dtype.text()));
            lemma_tells(m, 3, "reduce_op"@, JsonTree::Text(op.text()));
        },
    }
}

/// What is told of a rank that joins a collective is the place of that collective among
/// those that wait and who was waited for before and after, and who has joined; of one
/// that begins a collective, that all others are waited for.
pub proof fn law_matching_told(s: SimView, p: Participant, nranks: i32)
    ensures
        ({
            let queue = s.collectives.queue(p.key());
            let told = s.collectives.match_events(p, nranks);
            match told[1] {
                MatchView::NewWaiting { sequence, waiting_for } => {
                    &&& sequence == if s.collectives.begun.contains_key(p.comm.id@) {
                        s.collectives.begun[p.comm.id@]
                    } else {
                        0
                    }
                    &&& waiting_for == ascending(ranks_below(nranks).remove(p.comm.rank))
                },
                MatchView::Join {
                    sequence,
                    waiting_index,
                    waiting_for_before,
                    waiting_for_after,
                    joined_ranks,
                } => {
                    let i = first_joinable(queue, p.comm.rank, p.signature, 0)->0;
                    let joined = queue[i].joined.insert(p.comm.rank);
                    &&& waiting_index == i as usize
                    &&& waiting_for_before == ascending(queue[i].waiting_for)
                    &&& waiting_for_after == ascending(queue[i].waiting_for.remove(p.comm.rank))
                    &&& joined_ranks == ascending(joined)
                    &&& told.len() == 3 <==> forall|r: i32|
                        queue[i].waiting_for.contains(r) ==> r == p.comm.rank
                    &&& told.len() == 3 ==> told[2] == (MatchView::Complete {
                        sequence,
                        joined_ranks: ascending(joined),
                    })
                },
                _ => false,
            }
        }),
{
    let queue = s.collectives.queue(p.key());
    law_oldest_joinable(queue, p.comm.rank, p.signature, 0);
    if let Some(i) = first_joinable(queue, p.comm.rank, p.signature, 0) {
        let left = queue[i].waiting_for;
        if left.remove(p.comm.rank) =~= Set::empty() {
            assert forall|r: i32| left.contains(r) implies r == p.comm.rank by {
                assert(!left.remove(p.comm.rank).contains(r));
            }
        }
        if forall|r: i32| left.contains(r) ==> r == p.comm.rank {
            assert(left.remove(p.comm.rank) =~= Set::empty());
        }
    }
}

/// A collective on a communicator that is there is told of line by line, one for each
/// event; nothing else is.
pub proof fn law_lines_of_trace(s: SimView, msg: CudaCallMsg, i: int)
    ensures
        match participant_of(msg) {
            Some(p) => {
                let told = s.collectives.match_events(
                    p,
                    s.comms.groups[p.comm.id@].len() as i32,
                );
                &&& p.host == msg.id.host
                &&& p.curr_time == msg.curr_time
                &&& s.comms.groups.contains_key(p.comm.id@) ==> s.match_trace(msg).len()
                    == told.len() && (0 <= i < told.len() ==> s.match_trace(msg)[i] == tree_text(
                    event_tree(p, told[i]),
                ))
                &&& !s.comms.groups.contains_key(p.comm.id@) ==> s.match_trace(msg).len() == 0
            },
            None => s.match_trace(msg).len() == 0,
        },
        participant_of(msg) is Some <==> msg.call is NcclBcast || msg.call is NcclAllReduce
            || msg.call is NcclAllGather || msg.call is NcclReduceScatter,
{
}

/// A trace is asked for by one, true, yes or on, in capitals or not, and by nothing else.
pub proof fn law_trace_asked_for(value: Seq<char>)
    ensures
        asks_for_trace(value) <==> lower_text(value) == "1"@ || lower_text(value) == "true"@
            || lower_text(value) == "yes"@ || lower_text(value) == "on"@,
        lower_text(value).len() == value.len(),
        forall|i: int|
            0 <= i < value.len() ==> #[trigger] lower_text(value)[i] == crate::text::ascii_lower(
                value[i],
            ),
{
}

/// Turning the calls buffered on a stream into events changes no time that is given; where
/// times are measured, or every call keeps its own, nothing of what is known changes.
pub proof fn law_times_stay(core: CoreView, name: StreamName, c: CallView)
    ensures
        ({
            let after = core.flush(name).times;
            &&& after.replay == core.times.replay
            &&& after.sequence == core.times.sequence
            &&& after.answer(c) == core.times.answer(c)
            &&& !core.times.replay || core.single ==> after == core.times
        }),
{
    let pieces = split(core.stream(name).buffered, core.single);
    lemma_times_after(core.times, pieces, pieces.len() as int);
    if !core.times.replay || core.single {
        assert(core.single ==> forall|k: int|
            0 <= k < pieces.len() ==> (#[trigger] pieces[k]) is Single);
        lemma_times_same(core.times, pieces, pieces.len() as int);
    }
}

proof fn lemma_times_same(times: TorchTimes, pieces: Seq<SeqView>, n: int)
    requires
        0 <= n <= pieces.len(),
        !times.replay || forall|k: int| 0 <= k < pieces.len() ==> (#[trigger] pieces[k]) is Single,
    ensures
        times_after(times, pieces, n) == times,
    decreases n,
{
    if n > 0 {
        lemma_times_same(times, pieces, n - 1);
        if let SeqView::Run(calls) = pieces[n - 1] {
            assert(!times.replay);
        }
    }
}

/// In replay every call of a run without recorded times has a time once the run was turned
/// into events, and is noted as missing where it had none.
pub proof fn law_runs_noted(core: CoreView, name: StreamName, k: int, i: int)
    requires
        core.times.replay,
        0 <= k < split(core.stream(name).buffered, core.single).len(),
        split(core.stream(name).buffered, core.single)[k] is Run,
        ({
            let calls = call_infos(
                split(core.stream(name).buffered, core.single)[k]->Run_0,
            );
            0 <= i < calls.len() && !core.times.sequence.contains_key(
                crate::torch_call::sequence_hash(calls),
            )
        }),
    ensures
        ({
            let c = call_infos(split(core.stream(name).buffered, core.single)[k]->Run_0)[i];
            let after = core.flush(name).times;
            &&& after.compute.contains_key(c)
            &&& !core.times.compute.contains_key(c) ==> after.missing.contains(c)
        }),
{
    let pieces = split(core.stream(name).buffered, core.single);
    lemma_runs_noted(core.times, pieces, pieces.len() as int, k, i);
}

proof fn lemma_asked_kept(times: TorchTimes, calls: Seq<CallView>, c: CallView)
    ensures
        times.compute.contains_key(c) ==> times.asked_all(calls).compute.contains_key(c),
        times.missing.contains(c) ==> times.asked_all(calls).missing.contains(c),
        times.asked_all(calls).replay == times.replay,
        times.asked_all(calls).sequence == times.sequence,
        times.replay && calls.contains(c) ==> times.asked_all(calls).compute.contains_key(c) && (
        !times.compute.contains_key(c) ==> times.asked_all(calls).missing.contains(c)),
        times.asked_all(calls).compute.contains_key(c) && !times.compute.contains_key(c)
            ==> times.asked_all(calls).missing.contains(c),
    decreases calls.len(),
{
    if calls.len() > 0 {
        let front = calls.drop_last();
        let before = times.asked_all(front);
        let after = times.asked_all(calls);
        lemma_asked_kept(times, front, c);
        if before.missing.contains(c) {
            let j = choose|j: int| 0 <= j < before.missing.len() && before.missing[j] == c;
            assert(after.missing[j] == c);
        }
        if calls.contains(c) && c != calls.last() {
            let j = choose|j: int| 0 <= j < calls.len() && calls[j] == c;
            assert(front[j] == c);
        }
        if c == calls.last() && times.replay && !before.compute.contains_key(c) {
            assert(after.missing == before.missing.push(c));
            assert(after.missing[before.missing.len() as int] == c);
        }
    }
}

proof fn lemma_runs_noted(times: TorchTimes, pieces: Seq<SeqView>, n: int, k: int, i: int)
    requires
        times.replay,
        0 <= k < n <= pieces.len(),
        pieces[k] is Run,
        0 <= i < call_infos(pieces[k]->Run_0).len(),
        !times.sequence.contains_key(
            crate::torch_call::sequence_hash(call_infos(pieces[k]->Run_0)),
        ),
    ensures
        ({
            let c = call_infos(pieces[k]->Run_0)[i];
            let after = times_after(times, pieces, n);
            &&& after.compute.contains_key(c)
            &&& !times.compute.contains_key(c) ==> after.missing.contains(c)
        }),
    decreases n,
{
    let c = call_infos(pieces[k]->Run_0)[i];
    let before = times_after(times, pieces, n - 1);
    lemma_times_after(times, pieces, n - 1);
    if k == n - 1 {
        let calls = call_infos(pieces[k]->Run_0);
        assert(calls.contains(c));
        lemma_asked_kept(before, calls, c);
        lemma_known_noted(times, pieces, n - 1, c);
    } else {
        lemma_runs_noted(times, pieces, n - 1, k, i);
        if let SeqView::Run(more) = pieces[n - 1] {
            lemma_asked_kept(before, call_infos(more), c);
        }
    }
}

/// A call that has come to have a time is noted as missing.
proof fn lemma_known_noted(times: TorchTimes, pieces: Seq<SeqView>, n: int, c: CallView)
    ensures
        times_after(times, pieces, n).compute.contains_key(c) && !times.compute.contains_key(c)
            ==> times_after(times, pieces, n).missing.contains(c),
    decreases n,
{
    if n > 0 {
        lemma_known_noted(times, pieces, n - 1, c);
        if let SeqView::Run(calls) = pieces[n - 1] {
            lemma_asked_kept(times_after(times, pieces, n - 1), call_infos(calls), c);
        }
    }
}

} // verus!
