//! What forming and splitting communicators is for: every rank is told where it stands,
//! and the members are kept in the order in which they were told.

use crate::cuda_call::{HostId, ResponseId, SplitResponse, SyncResponse, NCCL_SPLIT_NOCOLOR};
use crate::nccl_id::id_count;
use crate::simulator::comms::{
    by_key, colors, device_of, law_ranks_by_key, law_split_ids_distinct, no_color_replies,
    of_color, ordered, split_replies, CommState, SplitInfo, SplitView,
};
use crate::simulator::hosts::{ClockView, Reply, ReplyBody};
use vstd::prelude::*;

verus! {

/// Whether an answer was given from some place on.
pub open spec fn told(replies: Seq<Reply>, from: int, to: ResponseId, body: ReplyBody) -> bool {
    exists|j: int| from <= j < replies.len() && #[trigger] replies[j] == (Reply { to, body })
}

/// The answer that places a rank in a new communicator.
pub open spec fn placed_at(rank: int, nranks: int, id: [u8; 128], time: i64) -> ReplyBody {
    ReplyBody::Split(
        SplitResponse {
            rank: rank as i32,
            nranks: nranks as i32,
            id,
            sync: SyncResponse { end_time: time },
        },
    )
}

/// The members of the communicator of color `a`.
spec fn group_of(members: Seq<SplitInfo>, wanted: Seq<i32>, a: int) -> Seq<SplitInfo> {
    by_key(of_color(members, wanted[a]))
}

/// The identifier of the communicator of color `a`.
spec fn id_of(
    state: CommState,
    members: Seq<SplitInfo>,
    wanted: Seq<i32>,
    time: i64,
    a: int,
) -> [u8; 128] {
    state.new_groups(members, wanted.take(a), time).comms.next
}

/// Whether the communicator of color `a` was formed and its ranks were told.
spec fn formed(
    state: CommState,
    after: CommState,
    members: Seq<SplitInfo>,
    wanted: Seq<i32>,
    time: i64,
    a: int,
) -> bool {
    let group = group_of(members, wanted, a);
    let id = id_of(state, members, wanted, time, a);
    &&& after.comms.groups.contains_key(id@)
    &&& after.comms.groups[id@].len() == group.len()
    &&& forall|r: int|
        0 <= r < group.len() ==> #[trigger] after.comms.groups[id@][r] == (
            group[r].host.host,
            group[r].device,
        )
    &&& forall|r: int|
        #![trigger group[r]]
        0 <= r < group.len() ==> told(
            after.clock.replies,
            state.clock.replies.len() as int,
            group[r].host,
            placed_at(r, group.len() as int, id, time),
        )
}

/// Whether an answer places rank `r` of the communicator of color `a`.
spec fn places(
    state: CommState,
    reply: Reply,
    members: Seq<SplitInfo>,
    wanted: Seq<i32>,
    time: i64,
    a: int,
    r: int,
) -> bool {
    let group = group_of(members, wanted, a);
    &&& 0 <= a < wanted.len()
    &&& 0 <= r < group.len()
    &&& reply == Reply {
        to: group[r].host,
        body: placed_at(r, group.len() as int, id_of(state, members, wanted, time, a), time),
    }
}

/// Whether an answer places a rank of one of the new communicators.
spec fn is_placement(
    state: CommState,
    reply: Reply,
    members: Seq<SplitInfo>,
    wanted: Seq<i32>,
    time: i64,
) -> bool {
    exists|a: int, r: int| #[trigger] places(state, reply, members, wanted, time, a, r)
}

proof fn lemma_split_replies(
    clock: ClockView,
    group: Seq<SplitInfo>,
    id: [u8; 128],
    time: i64,
    n: int,
)
    requires
        0 <= n <= group.len(),
    ensures
        ({
            let after = split_replies(clock, group, id, time, n).replies;
            &&& after.len() == clock.replies.len() + n
            &&& forall|j: int|
                0 <= j < clock.replies.len() ==> #[trigger] after[j] == clock.replies[j]
            &&& forall|j: int|
                clock.replies.len() <= j < after.len() ==> #[trigger] after[j] == (Reply {
                    to: group[j - clock.replies.len()].host,
                    body: placed_at(
                        j - clock.replies.len(),
                        group.len() as int,
                        id,
                        time,
                    ),
                })
        }),
    decreases n,
{
    if n > 0 {
        lemma_split_replies(clock, group, id, time, n - 1);
    }
}

proof fn lemma_formed_kept(
    state: CommState,
    before: CommState,
    after: CommState,
    members: Seq<SplitInfo>,
    front: Seq<i32>,
    wanted: Seq<i32>,
    time: i64,
    a: int,
)
    requires
        0 <= a < front.len(),
        wanted.len() == front.len() + 1,
        wanted.drop_last() == front,
        formed(state, before, members, front, time, a),
        before.clock.replies.len() <= after.clock.replies.len(),
        forall|j: int|
            0 <= j < before.clock.replies.len() ==> #[trigger] after.clock.replies[j]
                == before.clock.replies[j],
        after.comms.groups.contains_key(id_of(state, members, front, time, a)@),
        after.comms.groups[id_of(state, members, front, time, a)@]
            == before.comms.groups[id_of(state, members, front, time, a)@],
    ensures
        formed(state, after, members, wanted, time, a),
{
    assert(wanted[a] == front[a]);
    assert(wanted.take(a) =~= front.take(a));
    let group = group_of(members, wanted, a);
    let id = id_of(state, members, wanted, time, a);
    assert forall|r: int|
        #![trigger group[r]]
        0 <= r < group.len() implies told(
        after.clock.replies,
        state.clock.replies.len() as int,
        group[r].host,
        placed_at(r, group.len() as int, id, time),
    ) by {
        let body = placed_at(r, group.len() as int, id, time);
        assert(told(
            before.clock.replies,
            state.clock.replies.len() as int,
            group[r].host,
            body,
        ));
        let j = choose|j: int|
            state.clock.replies.len() <= j < before.clock.replies.len()
                && #[trigger] before.clock.replies[j] == (Reply { to: group[r].host, body });
        assert(after.clock.replies[j] == before.clock.replies[j]);
    }
    assert forall|r: int| 0 <= r < group.len() implies #[trigger] after.comms.groups[id@][r] == (
        group[r].host.host,
        group[r].device,
    ) by {
        assert(before.comms.groups[id@][r] == (group[r].host.host, group[r].device));
    }
}

proof fn lemma_new_groups(state: CommState, members: Seq<SplitInfo>, wanted: Seq<i32>, time: i64)
    requires
        wanted.len() < id_count(),
    ensures
        ({
            let after = state.new_groups(members, wanted, time);
            let from = state.clock.replies.len() as int;
            &&& from <= after.clock.replies.len()
            &&& forall|j: int|
                0 <= j < from ==> #[trigger] after.clock.replies[j] == state.clock.replies[j]
            &&& forall|a: int|
                0 <= a < wanted.len() ==> #[trigger] formed(
                    state,
                    after,
                    members,
                    wanted,
                    time,
                    a,
                )
            &&& forall|j: int|
                from <= j < after.clock.replies.len() ==> is_placement(
                    state,
                    #[trigger] after.clock.replies[j],
                    members,
                    wanted,
                    time,
                )
        }),
    decreases wanted.len(),
{
    if wanted.len() > 0 {
        let front = wanted.drop_last();
        let last = wanted.len() - 1;
        let before = state.new_groups(members, front, time);
        let after = state.new_groups(members, wanted, time);
        let from = state.clock.replies.len() as int;
        lemma_new_groups(state, members, front, time);
        assert(wanted.take(last) =~= front);
        let group = group_of(members, wanted, last);
        let id = id_of(state, members, wanted, time, last);
        assert(id == before.comms.next);
        lemma_split_replies(before.clock, group, id, time, group.len() as int);
        let told_now = after.clock.replies;
        let told_then = before.clock.replies;
        assert(after.comms.groups == before.comms.groups.insert(
            id@,
            group.map_values(|m: SplitInfo| (m.host.host, m.device)),
        ));
        assert forall|a: int| 0 <= a < wanted.len() implies #[trigger] formed(
            state,
            after,
            members,
            wanted,
            time,
            a,
        ) by {
            if a < last {
                assert(formed(state, before, members, front, time, a));
                law_split_ids_distinct(state, members, wanted, time, a, last);
                assert(wanted.take(a) =~= front.take(a));
                lemma_formed_kept(state, before, after, members, front, wanted, time, a);
            } else {
                assert forall|r: int|
                    #![trigger group[r]]
                    0 <= r < group.len() implies told(
                    told_now,
                    from,
                    group[r].host,
                    placed_at(r, group.len() as int, id, time),
                ) by {
                    let j = told_then.len() + r;
                    assert(told_now[j] == (Reply {
                        to: group[r].host,
                        body: placed_at(r, group.len() as int, id, time),
                    }));
                }
            }
        }
        assert forall|j: int| from <= j < told_now.len() implies is_placement(
            state,
            #[trigger] told_now[j],
            members,
            wanted,
            time,
        ) by {
            if j < told_then.len() {
                assert(told_now[j] == told_then[j]);
                assert(is_placement(state, told_then[j], members, front, time));
                let (a, r) = choose|a: int, r: int| #[trigger]
                    places(state, told_then[j], members, front, time, a, r);
                assert(wanted[a] == front[a]);
                assert(wanted.take(a) =~= front.take(a));
                assert(places(state, told_now[j], members, wanted, time, a, r));
            } else {
                assert(places(
                    state,
                    told_now[j],
                    members,
                    wanted,
                    time,
                    last,
                    j - told_then.len(),
                ));
            }
        }
        assert forall|j: int| 0 <= j < from implies #[trigger] told_now[j]
            == state.clock.replies[j] by {
            assert(told_then[j] == state.clock.replies[j]);
        }
    }
}

proof fn lemma_no_color_replies(clock: ClockView, members: Seq<SplitInfo>)
    ensures
        ({
            let after = no_color_replies(clock, members).replies;
            let from = clock.replies.len() as int;
            &&& from <= after.len()
            &&& forall|j: int| 0 <= j < from ==> #[trigger] after[j] == clock.replies[j]
            &&& forall|j: int|
                from <= j < after.len() ==> has_no_color(#[trigger] after[j], members)
            &&& forall|m: int|
                0 <= m < members.len() && (#[trigger] members[m]).color == NCCL_SPLIT_NOCOLOR
                    ==> told(after, from, members[m].host, ReplyBody::NoColor)
        }),
    decreases members.len(),
{
    if members.len() > 0 {
        let front = members.drop_last();
        let from = clock.replies.len() as int;
        lemma_no_color_replies(clock, front);
        let before = no_color_replies(clock, front).replies;
        let after = no_color_replies(clock, members).replies;
        assert forall|j: int| from <= j < after.len() implies has_no_color(
            #[trigger] after[j],
            members,
        ) by {
            if j < before.len() {
                assert(after[j] == before[j]);
                assert(has_no_color(before[j], front));
                let m = choose|m: int|
                    0 <= m < front.len() && (#[trigger] front[m]).color == NCCL_SPLIT_NOCOLOR
                        && before[j] == (Reply { to: front[m].host, body: ReplyBody::NoColor });
                assert(members[m] == front[m]);
            } else {
                assert(members[members.len() - 1].color == NCCL_SPLIT_NOCOLOR);
            }
        }
        assert forall|m: int|
            0 <= m < members.len() && (#[trigger] members[m]).color
                == NCCL_SPLIT_NOCOLOR implies told(
            after,
            from,
            members[m].host,
            ReplyBody::NoColor,
        ) by {
            if m < front.len() {
                assert(front[m] == members[m]);
                assert(told(before, from, front[m].host, ReplyBody::NoColor));
                let j = choose|j: int|
                    from <= j < before.len() && #[trigger] before[j] == (Reply {
                        to: front[m].host,
                        body: ReplyBody::NoColor,
                    });
                assert(after[j] == before[j]);
            } else {
                assert(after[before.len() as int] == (Reply {
                    to: members[m].host,
                    body: ReplyBody::NoColor,
                }));
            }
        }
    }
}

/// Whether an answer tells a rank that asked for no communicator that it has none.
pub open spec fn has_no_color(reply: Reply, members: Seq<SplitInfo>) -> bool {
    exists|m: int|
        0 <= m < members.len() && (#[trigger] members[m]).color == NCCL_SPLIT_NOCOLOR && reply == (
        Reply { to: members[m].host, body: ReplyBody::NoColor })
}

/// Whether an answer places a rank that asked for a communicator: the communicator that it
/// names has as many members as it says, and the one at the rank that it gives is the
/// process and device of the rank that was told so.
pub open spec fn has_seat(
    groups: Map<Seq<u8>, Seq<(HostId, i32)>>,
    reply: Reply,
    members: Seq<SplitInfo>,
    time: i64,
) -> bool {
    match reply.body {
        ReplyBody::Split(told) => {
            let group = groups[told.id@];
            &&& told.sync.end_time == time
            &&& groups.contains_key(told.id@)
            &&& group.len() == told.nranks
            &&& 0 <= told.rank < told.nranks
            &&& exists|m: int|
                0 <= m < members.len() && (#[trigger] members[m]).color != NCCL_SPLIT_NOCOLOR
                    && reply.to == members[m].host && group[told.rank as int] == (
                members[m].host.host, members[m].device)
        },
        _ => false,
    }
}

/// The colors that are asked for, each once.
pub proof fn lemma_colors(members: Seq<SplitInfo>)
    ensures
        forall|c: i32| #[trigger]
            colors(members).contains(c) <==> c != NCCL_SPLIT_NOCOLOR && exists|m: int|
                0 <= m < members.len() && (#[trigger] members[m]).color == c,
        colors(members).no_duplicates(),
        colors(members).len() <= members.len(),
    decreases members.len(),
{
    if members.len() > 0 {
        let front = members.drop_last();
        let before = colors(front);
        let after = colors(members);
        let last = members.last().color;
        lemma_colors(front);
        assert forall|c: i32| #[trigger] after.contains(c) <==> c != NCCL_SPLIT_NOCOLOR && exists|
            m: int,
        | 0 <= m < members.len() && (#[trigger] members[m]).color == c by {
            assert(before.contains(c) <==> c != NCCL_SPLIT_NOCOLOR && exists|m: int|
                0 <= m < front.len() && (#[trigger] front[m]).color == c);
            if before.contains(c) {
                let m = choose|m: int| 0 <= m < front.len() && (#[trigger] front[m]).color == c;
                assert(members[m] == front[m]);
                let i = choose|i: int| 0 <= i < before.len() && before[i] == c;
                assert(after[i] == c);
            }
            if c != NCCL_SPLIT_NOCOLOR && exists|m: int|
                0 <= m < members.len() && (#[trigger] members[m]).color == c {
                let m = choose|m: int| 0 <= m < members.len() && (#[trigger] members[m]).color == c;
                if m < front.len() {
                    assert(front[m].color == c);
                } else if !before.contains(c) {
                    assert(after[before.len() as int] == c);
                }
            }
            if after.contains(c) && !before.contains(c) {
                let i = choose|i: int| 0 <= i < after.len() && after[i] == c;
                if i < before.len() {
                    assert(before[i] == c);
                }
                assert(members[members.len() - 1].color == c);
            }
        }
    }
}

spec fn asked_for(members: Seq<SplitInfo>, info: SplitInfo, color: i32) -> bool {
    exists|m: int| 0 <= m < members.len() && members[m] == info && members[m].color == color
}

proof fn lemma_group_members(members: Seq<SplitInfo>, color: i32)
    ensures
        by_key(of_color(members, color)).len() <= members.len(),
        forall|r: int|
            0 <= r < by_key(of_color(members, color)).len() ==> asked_for(
                members,
                #[trigger] by_key(of_color(members, color))[r],
                color,
            ),
{
    broadcast use vstd::seq_lib::group_to_multiset_ensures;

    let part = of_color(members, color);
    let group = by_key(part);
    law_ranks_by_key(part, 0);
    lemma_of_color(members, color);
    assert(group.len() == group.to_multiset().len() && part.len() == part.to_multiset().len());
    assert forall|r: int| 0 <= r < group.len() implies asked_for(
        members,
        #[trigger] group[r],
        color,
    ) by {
        assert(group.contains(group[r]));
        assert(group.to_multiset().count(group[r]) > 0);
        assert(part.contains(group[r]));
        let m = choose|m: int| 0 <= m < members.len() && members[m] == group[r];
        assert(members[m] == group[r]);
    }
}

/// The ranks that asked for a color.
pub proof fn lemma_of_color(members: Seq<SplitInfo>, color: i32)
    ensures
        of_color(members, color).len() <= members.len(),
        forall|x: SplitInfo| #[trigger]
            of_color(members, color).contains(x) <==> members.contains(x) && x.color == color,
    decreases members.len(),
{
    reveal(Seq::filter);
    let part = of_color(members, color);
    if members.len() > 0 {
        let front = members.drop_last();
        let last = members.last();
        lemma_of_color(front, color);
        let rest = of_color(front, color);
        assert forall|x: SplitInfo| #[trigger] part.contains(x) <==> members.contains(x) && x.color
            == color by {
            assert(rest.contains(x) <==> front.contains(x) && x.color == color);
            if front.contains(x) {
                let i = choose|i: int| 0 <= i < front.len() && front[i] == x;
                assert(members[i] == x);
            }
            if members.contains(x) && x != last {
                let i = choose|i: int| 0 <= i < members.len() && members[i] == x;
                assert(front[i] == x);
            }
            if rest.contains(x) {
                let i = choose|i: int| 0 <= i < rest.len() && rest[i] == x;
                assert(part[i] == x);
            }
            assert(members[members.len() - 1] == last);
            if last.color == color {
                assert(part[rest.len() as int] == last);
                if part.contains(x) && x != last {
                    let i = choose|i: int| 0 <= i < part.len() && part[i] == x;
                    assert(rest[i] == x);
                }
            }
        }
    }
}

/// Once all ranks of a communicator took part in its split, each of them is told: one that
/// asked for no communicator that it has none, and each other one its seat in the
/// communicator that was formed for it. Whoever is told a rank is the member that is kept
/// at that rank.
pub proof fn law_told_rank_is_kept(state: CommState, members: Seq<SplitInfo>, time: i64)
    requires
        members.len() <= i32::MAX,
        members.len() < id_count(),
    ensures
        ({
            let after = state.divide(members, time);
            let replies = after.clock.replies;
            let from = state.clock.replies.len() as int;
            &&& from <= replies.len()
            &&& forall|j: int|
                0 <= j < from ==> #[trigger] replies[j] == state.clock.replies[j]
            &&& forall|j: int|
                from <= j < replies.len() ==> has_no_color(#[trigger] replies[j], members)
                    || has_seat(after.comms.groups, replies[j], members, time)
            &&& forall|m: int|
                #![trigger members[m]]
                0 <= m < members.len() ==> exists|j: int|
                    from <= j < replies.len() && (#[trigger] replies[j]).to == members[m].host && (
                    replies[j].body is NoColor <==> members[m].color == NCCL_SPLIT_NOCOLOR)
        }),
{
    let wanted = colors(members);
    let begin = CommState { clock: no_color_replies(state.clock, members), ..state };
    let after = state.divide(members, time);
    let replies = after.clock.replies;
    let from = state.clock.replies.len() as int;
    lemma_colors(members);
    lemma_no_color_replies(state.clock, members);
    lemma_new_groups(begin, members, wanted, time);
    let first = begin.clock.replies;
    assert forall|j: int| from <= j < replies.len() implies has_no_color(
        #[trigger] replies[j],
        members,
    ) || has_seat(after.comms.groups, replies[j], members, time) by {
        if j < first.len() {
            assert(replies[j] == first[j]);
            assert(has_no_color(first[j], members));
        } else {
            assert(is_placement(begin, replies[j], members, wanted, time));
            let (a, r) = choose|a: int, r: int| #[trigger]
                places(begin, replies[j], members, wanted, time, a, r);
            assert(formed(begin, after, members, wanted, time, a));
            lemma_group_members(members, wanted[a]);
            assert(wanted.contains(wanted[a]));
            let group = group_of(members, wanted, a);
            let id = id_of(begin, members, wanted, time, a);
            assert(after.comms.groups[id@][r] == (group[r].host.host, group[r].device));
            assert(asked_for(members, group[r], wanted[a]));
            let m = choose|m: int|
                0 <= m < members.len() && members[m] == group[r] && members[m].color == wanted[a];
            assert(members[m].color != NCCL_SPLIT_NOCOLOR);
        }
    }
    assert forall|m: int|
        #![trigger members[m]]
        0 <= m < members.len() implies exists|j: int|
        from <= j < replies.len() && (#[trigger] replies[j]).to == members[m].host && (
        replies[j].body is NoColor <==> members[m].color == NCCL_SPLIT_NOCOLOR) by {
        let c = members[m].color;
        if c == NCCL_SPLIT_NOCOLOR {
            assert(told(first, from, members[m].host, ReplyBody::NoColor));
            let j = choose|j: int|
                from <= j < first.len() && #[trigger] first[j] == (Reply {
                    to: members[m].host,
                    body: ReplyBody::NoColor,
                });
            assert(replies[j] == first[j]);
        } else {
            assert(wanted.contains(c));
            let a = choose|a: int| 0 <= a < wanted.len() && wanted[a] == c;
            assert(formed(begin, after, members, wanted, time, a));
            let r = lemma_has_seat(members, c, m);
            let group = group_of(members, wanted, a);
            let id = id_of(begin, members, wanted, time, a);
            let body = placed_at(r, group.len() as int, id, time);
            assert(group[r] == members[m]);
            assert(told(replies, first.len() as int, group[r].host, body));
            let j = choose|j: int|
                first.len() <= j < replies.len() && #[trigger] replies[j] == (Reply {
                    to: group[r].host,
                    body,
                });
            assert(replies[j].to == members[m].host);
        }
    }
    assert forall|j: int| 0 <= j < from implies #[trigger] replies[j] == state.clock.replies[j] by {
        assert(first[j] == state.clock.replies[j]);
    }
}

proof fn lemma_has_seat(members: Seq<SplitInfo>, color: i32, m: int) -> (r: int)
    requires
        0 <= m < members.len(),
        members[m].color == color,
    ensures
        0 <= r < by_key(of_color(members, color)).len(),
        by_key(of_color(members, color))[r] == members[m],
{
    broadcast use vstd::seq_lib::group_to_multiset_ensures;

    let part = of_color(members, color);
    let group = by_key(part);
    law_ranks_by_key(part, 0);
    lemma_of_color(members, color);
    assert(members.contains(members[m]));
    assert(part.contains(members[m]));
    assert(part.to_multiset().count(members[m]) > 0);
    assert(group.contains(members[m]));
    choose|r: int| 0 <= r < group.len() && group[r] == members[m]
}

/// The ranks that asked for one color form one communicator, and those of another color
/// another one. Its members are exactly the ranks of the color, in the order of their keys,
/// and each is told its place, how many they are, and the identifier.
pub proof fn law_split_by_color(
    state: CommState,
    members: Seq<SplitInfo>,
    time: i64,
    c: i32,
    d: i32,
) -> (r: (([u8; 128], Seq<SplitInfo>), ([u8; 128], Seq<SplitInfo>)))
    requires
        members.len() <= i32::MAX,
        members.len() < id_count(),
        c != NCCL_SPLIT_NOCOLOR,
        d != NCCL_SPLIT_NOCOLOR,
        exists|m: int| 0 <= m < members.len() && (#[trigger] members[m]).color == c,
        exists|m: int| 0 <= m < members.len() && (#[trigger] members[m]).color == d,
    ensures
        is_group(state, state.divide(members, time), members, time, c, r.0.0, r.0.1),
        is_group(state, state.divide(members, time), members, time, d, r.1.0, r.1.1),
        c != d ==> r.0.0@ != r.1.0@,
{
    let wanted = colors(members);
    let begin = CommState { clock: no_color_replies(state.clock, members), ..state };
    let after = state.divide(members, time);
    lemma_colors(members);
    lemma_no_color_replies(state.clock, members);
    lemma_new_groups(begin, members, wanted, time);
    assert(wanted.contains(c) && wanted.contains(d));
    let a = choose|a: int| 0 <= a < wanted.len() && wanted[a] == c;
    let b = choose|b: int| 0 <= b < wanted.len() && wanted[b] == d;
    lemma_is_group(state, begin, members, wanted, time, a);
    lemma_is_group(state, begin, members, wanted, time, b);
    if a < b {
        law_split_ids_distinct(begin, members, wanted, time, a, b);
    } else if b < a {
        law_split_ids_distinct(begin, members, wanted, time, b, a);
    }
    (
        (id_of(begin, members, wanted, time, a), group_of(members, wanted, a)),
        (id_of(begin, members, wanted, time, b), group_of(members, wanted, b)),
    )
}

/// Whether a communicator is the one of a color.
pub open spec fn is_group(
    state: CommState,
    after: CommState,
    members: Seq<SplitInfo>,
    time: i64,
    color: i32,
    id: [u8; 128],
    group: Seq<SplitInfo>,
) -> bool {
    &&& group.to_multiset() == members.filter(|m: SplitInfo| m.color == color).to_multiset()
    &&& forall|i: int, j: int|
        0 <= i < j < group.len() ==> (#[trigger] group[i]).key <= (#[trigger] group[j]).key
    &&& after.comms.groups.contains_key(id@)
    &&& after.comms.groups[id@].len() == group.len()
    &&& forall|r: int|
        0 <= r < group.len() ==> #[trigger] after.comms.groups[id@][r] == (
            group[r].host.host,
            group[r].device,
        )
    &&& forall|r: int|
        #![trigger group[r]]
        0 <= r < group.len() ==> told(
            after.clock.replies,
            state.clock.replies.len() as int,
            group[r].host,
            placed_at(r, group.len() as int, id, time),
        )
}

proof fn lemma_is_group(
    state: CommState,
    begin: CommState,
    members: Seq<SplitInfo>,
    wanted: Seq<i32>,
    time: i64,
    a: int,
)
    requires
        0 <= a < wanted.len(),
        state.clock.replies.len() <= begin.clock.replies.len(),
        formed(begin, begin.new_groups(members, wanted, time), members, wanted, time, a),
    ensures
        is_group(
            state,
            begin.new_groups(members, wanted, time),
            members,
            time,
            wanted[a],
            id_of(begin, members, wanted, time, a),
            group_of(members, wanted, a),
        ),
{
    let after = begin.new_groups(members, wanted, time);
    let group = group_of(members, wanted, a);
    let id = id_of(begin, members, wanted, time, a);
    law_ranks_by_key(of_color(members, wanted[a]), 0);
    assert(ordered(group));
    let color = wanted[a];
    assert(of_color(members, color) == members.filter(|m: SplitInfo| m.color == color));
    assert forall|r: int|
        #![trigger group[r]]
        0 <= r < group.len() implies told(
        after.clock.replies,
        state.clock.replies.len() as int,
        group[r].host,
        placed_at(r, group.len() as int, id, time),
    ) by {
        let body = placed_at(r, group.len() as int, id, time);
        assert(told(after.clock.replies, begin.clock.replies.len() as int, group[r].host, body));
        let j = choose|j: int|
            begin.clock.replies.len() <= j < after.clock.replies.len()
                && #[trigger] after.clock.replies[j] == (Reply { to: group[r].host, body });
    }
}

/// Whether the order in which ranks joined a split lists each of them once.
pub open spec fn joined_listed(split: SplitView) -> bool {
    &&& split.order.no_duplicates()
    &&& forall|r: i32| #[trigger] split.order.contains(r) <==> split.joined.contains_key(r)
}

/// Whether a device is the one on which a process is the first member of a communicator, or
/// the first device where it is none.
pub open spec fn is_device(
    group: Seq<(HostId, i32)>,
    host: (Seq<char>, u32),
    device: i32,
) -> bool {
    ||| exists|k: int|
        0 <= k < group.len() && (#[trigger] group[k]).0@ == host && group[k].1 == device && forall|
            j: int,
        | 0 <= j < k ==> (#[trigger] group[j]).0@ != host
    ||| device == 0 && forall|j: int| 0 <= j < group.len() ==> (#[trigger] group[j]).0@ != host
}

proof fn lemma_device(group: Seq<(HostId, i32)>, host: (Seq<char>, u32), device: i32, i: int)
    requires
        is_device(group, host, device),
        0 <= i <= group.len(),
        forall|j: int| 0 <= j < i ==> (#[trigger] group[j]).0@ != host,
    ensures
        device_of(group, host, i) == device,
    decreases group.len() - i,
{
    if i < group.len() {
        if group[i].0@ != host {
            lemma_device(group, host, device, i + 1);
        }
    }
}

/// A rank that takes part in a split is kept with what it asked for and its own device, and
/// is no longer waited for. The first one has the split wait for all other ranks. While
/// some rank is waited for nobody is told anything; once the last one is there, the split
/// is over and the ranks are divided by what they asked for.
pub proof fn law_split_waits_for_all(
    state: CommState,
    host: ResponseId,
    time: i64,
    rank: i32,
    id: Seq<u8>,
    color: i32,
    key: i32,
    device: i32,
)
    requires
        state.comms.groups.contains_key(id),
        state.comms.groups[id].len() <= i32::MAX,
        is_device(state.comms.groups[id], host.host@, device),
        state.comms.split.contains_key(id) ==> joined_listed(state.comms.split[id]),
    ensures
        ({
            let after = state.split(host, time, rank, id, color, key);
            let info = SplitInfo { host, device, color, key };
            let old = state.comms.split[id];
            let new = after.comms.split[id];
            if !state.comms.split.contains_key(id) {
                &&& after.comms.split.contains_key(id)
                &&& joined_listed(new)
                &&& new.joined == Map::<i32, SplitInfo>::empty().insert(rank, info)
                &&& new.order == seq![rank]
                &&& forall|r: i32| #[trigger]
                    new.waiting_for.contains(r) <==> 0 <= r < state.comms.groups[id].len() && r
                        != rank
                &&& after.clock == state.clock
                &&& after.comms.groups == state.comms.groups
            } else if exists|r: i32| #[trigger] old.waiting_for.contains(r) && r != rank {
                &&& after.comms.split.contains_key(id)
                &&& joined_listed(new)
                &&& new.joined == old.joined.insert(rank, info)
                &&& new.waiting_for == old.waiting_for.remove(rank)
                &&& new.order == joining_order(old, rank)
                &&& after.clock == state.clock
                &&& after.comms.groups == state.comms.groups
            } else {
                let asked = old.joined.insert(rank, info);
                &&& !after.comms.split.contains_key(id)
                &&& exists|members: Seq<SplitInfo>, order: Seq<i32>| #[trigger]
                    lists_asked(members, order, asked) && order == joining_order(old, rank) && after == (
                    CommState {
                        comms: crate::simulator::comms::CommsView {
                            split: state.comms.split.remove(id),
                            ..state.comms
                        },
                        ..state
                    }).divide(members, time)
            }
        }),
{
    let hosts = state.comms.groups[id];
    lemma_device(hosts, host.host@, device, 0);
    let info = SplitInfo { host, device, color, key };
    let after = state.split(host, time, rank, id, color, key);
    if state.comms.split.contains_key(id) {
        let old = state.comms.split[id];
        let new = old.with_rank(rank, info);
        lemma_listed_more(old, rank, info);
        if new.waiting_for =~= Set::empty() {
            assert forall|r: i32| #[trigger] old.waiting_for.contains(r) implies r == rank by {
                if r != rank {
                    assert(new.waiting_for.contains(r));
                }
            }
            let begin = CommState {
                comms: crate::simulator::comms::CommsView {
                    split: state.comms.split.remove(id),
                    ..state.comms
                },
                ..state
            };
            assert(lists_asked(new.members(), new.order, old.joined.insert(rank, info)));
            assert(after == begin.divide(new.members(), time));
            lemma_groups_keep_splits(
                CommState {
                    clock: no_color_replies(begin.clock, new.members()),
                    ..begin
                },
                new.members(),
                colors(new.members()),
                time,
            );
        } else {
            if forall|r: i32| !(#[trigger] old.waiting_for.contains(r) && r != rank) {
                assert(new.waiting_for =~= Set::empty());
            }
        }
    } else {
        assert(after.comms.split[id].order =~= seq![rank]);
        assert(seq![rank].contains(rank)) by {
            assert(seq![rank][0] == rank);
        }
    }
}

/// The order in which ranks have joined once one more has: the last one comes last.
pub open spec fn joining_order(split: SplitView, rank: i32) -> Seq<i32> {
    if split.joined.contains_key(rank) {
        split.order
    } else {
        split.order.push(rank)
    }
}

/// Whether some ranks and what they asked for are listed, each once.
pub open spec fn lists_asked(
    members: Seq<SplitInfo>,
    order: Seq<i32>,
    asked: Map<i32, SplitInfo>,
) -> bool {
    &&& members.len() == order.len()
    &&& order.no_duplicates()
    &&& forall|r: i32| #[trigger] order.contains(r) <==> asked.contains_key(r)
    &&& forall|k: int| 0 <= k < order.len() ==> #[trigger] members[k] == asked[order[k]]
}

/// One more rank is listed once.
pub proof fn lemma_listed_more(old: SplitView, rank: i32, info: SplitInfo)
    requires
        joined_listed(old),
    ensures
        joined_listed(old.with_rank(rank, info)),
{
    let new = old.with_rank(rank, info);
    if !old.joined.contains_key(rank) {
        assert(!old.order.contains(rank));
        assert forall|r: i32| #[trigger] new.order.contains(r) <==> new.joined.contains_key(r) by {
            assert(old.order.contains(r) <==> old.joined.contains_key(r));
            if old.order.contains(r) {
                let i = choose|i: int| 0 <= i < old.order.len() && old.order[i] == r;
                assert(new.order[i] == r);
            }
            assert(new.order[old.order.len() as int] == rank);
            if new.order.contains(r) && r != rank {
                let i = choose|i: int| 0 <= i < new.order.len() && new.order[i] == r;
                assert(old.order[i] == r);
            }
        }
        assert forall|i: int, j: int|
            0 <= i < new.order.len() && 0 <= j < new.order.len() && i != j implies new.order[i]
            != new.order[j] by {
            if i == old.order.len() {
                assert(old.order.contains(old.order[j]));
            } else if j == old.order.len() {
                assert(old.order.contains(old.order[i]));
            }
        }
    } else {
        assert forall|r: i32| #[trigger] new.order.contains(r) <==> new.joined.contains_key(r) by {
            assert(old.order.contains(r) <==> old.joined.contains_key(r));
        }
    }
}

/// Forming communicators leaves the splits that wait alone.
pub proof fn lemma_groups_keep_splits(
    state: CommState,
    members: Seq<SplitInfo>,
    wanted: Seq<i32>,
    time: i64,
)
    ensures
        state.new_groups(members, wanted, time).comms.split == state.comms.split,
        state.new_groups(members, wanted, time).comms.init == state.comms.init,
    decreases wanted.len(),
{
    if wanted.len() > 0 {
        lemma_groups_keep_splits(state, members, wanted.drop_last(), time);
    }
}

/// A rank that asks for the split of a communicator that is not there is told so at once,
/// and nothing else happens.
pub proof fn law_split_of_nothing(
    state: CommState,
    host: ResponseId,
    time: i64,
    rank: i32,
    id: Seq<u8>,
    color: i32,
    key: i32,
)
    requires
        !state.comms.groups.contains_key(id),
    ensures
        ({
            let after = state.split(host, time, rank, id, color, key);
            &&& after.comms == state.comms
            &&& after.clock.replies.len() == state.clock.replies.len() + 1
            &&& after.clock.replies.drop_last() == state.clock.replies
            &&& after.clock.replies.last().to == host
            &&& match after.clock.replies.last().body {
                ReplyBody::Split(told) => {
                    &&& told.rank == 0
                    &&& told.nranks == 0
                    &&& told.sync.end_time == time
                    &&& forall|i: int| 0 <= i < 128 ==> #[trigger] told.id@[i] == 128
                },
                _ => false,
            }
        }),
{
    let after = state.split(host, time, rank, id, color, key);
    assert(after.clock.replies.drop_last() =~= state.clock.replies);
}

} // verus!
