//! What becomes of clocks and of other communicators when communicators are formed.

use crate::cuda_call::{ResponseId, SplitResponse, SyncResponse, NCCL_SPLIT_NOCOLOR};
use crate::nccl_id::{id_count, id_number};
use crate::simulator::comm_laws::lemma_colors;
use crate::simulator::comms::{
    by_key, colors, init_replies, lemma_ids_counted, no_color_replies, of_color, split_replies,
    CommState, InitMember, SplitInfo,
};
use crate::simulator::hosts::{ClockView, HostName, ReplyBody, SyncPoint};
use vstd::prelude::*;

verus! {

/// Whether some processes stand at a time, or later where they stood there already, and
/// have nothing left to wait for; all other clocks stay as they are.
pub open spec fn all_stand_at(
    before: ClockView,
    after: ClockView,
    hosts: Set<HostName>,
    time: i64,
) -> bool {
    &&& forall|h: HostName| #[trigger]
        after.times.contains_key(h) <==> before.times.contains_key(h) || hosts.contains(h)
    &&& forall|h: HostName|
        #![trigger after.times[h]]
        hosts.contains(h) ==> after.times[h].sync == SyncPoint::Static(time)
            && after.times[h].curr == if before.times.contains_key(h) && before.times[h].curr
            > time {
            before.times[h].curr
        } else {
            time
        }
    &&& forall|h: HostName|
        #![trigger after.times[h]]
        !hosts.contains(h) && before.times.contains_key(h) ==> after.times[h] == before.times[h]
    &&& after.syncing == before.syncing
}

proof fn lemma_one_more(
    before: ClockView,
    clock: ClockView,
    hosts: Set<HostName>,
    time: i64,
    to: ResponseId,
    body: ReplyBody,
)
    requires
        all_stand_at(before, clock, hosts, time),
    ensures
        all_stand_at(
            before,
            clock.reply(to, body).synced(to.host@, time, None),
            hosts.insert(to.host@),
            time,
        ),
{
    let after = clock.reply(to, body).synced(to.host@, time, None);
    let all = hosts.insert(to.host@);
    assert forall|h: HostName| #[trigger] after.times.contains_key(h)
        <==> before.times.contains_key(h) || all.contains(h) by {
        assert(clock.times.contains_key(h) <==> before.times.contains_key(h) || hosts.contains(h));
    }
    assert forall|h: HostName|
        #![trigger after.times[h]]
        all.contains(h) implies after.times[h].sync == SyncPoint::Static(time)
        && after.times[h].curr == if before.times.contains_key(h) && before.times[h].curr > time {
        before.times[h].curr
    } else {
        time
    } by {
        assert(clock.times.contains_key(h) <==> before.times.contains_key(h) || hosts.contains(h));
        let seen = clock.times[h];
        if h != to.host@ {
            assert(after.times[h] == clock.times[h]);
        }
    }
    assert forall|h: HostName|
        #![trigger after.times[h]]
        !all.contains(h) && before.times.contains_key(h) implies after.times[h]
        == before.times[h] by {
        assert(after.times[h] == clock.times[h]);
    }
}

/// The processes of some ranks.
pub open spec fn init_hosts(members: Seq<InitMember>) -> Set<HostName> {
    Set::new(
        |h: HostName| exists|i: int| 0 <= i < members.len() && (#[trigger] members[i]).host.host@ == h,
    )
}

proof fn lemma_init_clocks(clock: ClockView, members: Seq<InitMember>, time: i64)
    ensures
        all_stand_at(clock, init_replies(clock, members, time), init_hosts(members), time),
    decreases members.len(),
{
    if members.len() > 0 {
        let front = members.drop_last();
        let last = members.last();
        lemma_init_clocks(clock, front, time);
        lemma_one_more(
            clock,
            init_replies(clock, front, time),
            init_hosts(front),
            time,
            last.host,
            ReplyBody::Sync(SyncResponse { end_time: time }),
        );
        assert forall|h: HostName| init_hosts(members).contains(h) == init_hosts(front).insert(
            last.host.host@,
        ).contains(h) by {
            if init_hosts(front).contains(h) {
                let i = choose|i: int|
                    0 <= i < front.len() && (#[trigger] front[i]).host.host@ == h;
                assert(members[i].host.host@ == h);
            }
            if h == last.host.host@ {
                assert(members[members.len() - 1].host.host@ == h);
            }
            if init_hosts(members).contains(h) && h != last.host.host@ {
                let i = choose|i: int|
                    0 <= i < members.len() && (#[trigger] members[i]).host.host@ == h;
                assert(front[i].host.host@ == h);
            }
        }
        assert(init_hosts(members) =~= init_hosts(front).insert(last.host.host@));
    } else {
        assert(init_hosts(members) =~= Set::empty());
    }
}

/// When the last rank joins a communicator, the processes of all its ranks stand at the
/// time at which it did, and no other clock moves.
pub proof fn law_formed_at_a_time(
    state: CommState,
    host: ResponseId,
    time: i64,
    device: i32,
    rank: i32,
    nranks: i32,
    id: Seq<u8>,
)
    requires
        state.comms.init.contains_key(id),
        forall|r: i32| #[trigger] state.comms.init[id].waiting_for.contains(r) ==> r == rank,
    ensures
        ({
            let after = state.init_rank(host, time, device, rank, nranks, id);
            let joined = state.comms.init[id].joined.insert(rank, InitMember { host, device });
            let n = if nranks < 0 {
                0
            } else {
                nranks as nat
            };
            all_stand_at(
                state.clock,
                after.clock,
                init_hosts(Seq::new(n, |r: int| joined[r as i32])),
                time,
            )
        }),
{
    let group = state.comms.init[id].with_rank(rank, InitMember { host, device });
    let members = group.members(nranks);
    let n = if nranks < 0 {
        0
    } else {
        nranks as nat
    };
    assert(group.waiting_for =~= Set::empty()) by {
        assert forall|r: i32| !group.waiting_for.contains(r) by {
            if group.waiting_for.contains(r) {
                assert(state.comms.init[id].waiting_for.contains(r));
            }
        }
    }
    assert(members =~= Seq::new(n, |r: int| group.joined[r as i32]));
    lemma_init_clocks(state.clock, members, time);
}

/// The processes of the ranks that asked for a color.
pub open spec fn colored_hosts(members: Seq<SplitInfo>) -> Set<HostName> {
    Set::new(
        |h: HostName|
            exists|i: int|
                0 <= i < members.len() && (#[trigger] members[i]).color != NCCL_SPLIT_NOCOLOR
                    && members[i].host.host@ == h,
    )
}

/// The processes of the ranks of some colors.
spec fn hosts_of(members: Seq<SplitInfo>, wanted: Seq<i32>) -> Set<HostName> {
    Set::new(
        |h: HostName|
            exists|i: int|
                0 <= i < members.len() && wanted.contains((#[trigger] members[i]).color)
                    && members[i].host.host@ == h,
    )
}

/// The processes of the first ranks of a group.
spec fn first_hosts(group: Seq<SplitInfo>, n: int) -> Set<HostName> {
    Set::new(
        |h: HostName| exists|i: int| 0 <= i < n && (#[trigger] group[i]).host.host@ == h,
    )
}

proof fn lemma_split_clocks(
    before: ClockView,
    clock: ClockView,
    hosts: Set<HostName>,
    group: Seq<SplitInfo>,
    id: [u8; 128],
    time: i64,
    n: int,
)
    requires
        0 <= n <= group.len(),
        all_stand_at(before, clock, hosts, time),
    ensures
        all_stand_at(
            before,
            split_replies(clock, group, id, time, n),
            hosts.union(first_hosts(group, n)),
            time,
        ),
    decreases n,
{
    if n > 0 {
        lemma_split_clocks(before, clock, hosts, group, id, time, n - 1);
        let last = group[n - 1];
        let now = split_replies(clock, group, id, time, n - 1);
        let body = ReplyBody::Split(
            SplitResponse {
                rank: (n - 1) as i32,
                nranks: group.len() as i32,
                id,
                sync: SyncResponse { end_time: time },
            },
        );
        lemma_one_more(
            before,
            now,
            hosts.union(first_hosts(group, n - 1)),
            time,
            last.host,
            body,
        );
        assert(first_hosts(group, n) =~= first_hosts(group, n - 1).insert(last.host.host@)) by {
            assert forall|h: HostName| first_hosts(group, n).contains(h) == first_hosts(
                group,
                n - 1,
            ).insert(last.host.host@).contains(h) by {
                if first_hosts(group, n - 1).contains(h) {
                    let i = choose|i: int|
                        0 <= i < n - 1 && (#[trigger] group[i]).host.host@ == h;
                    assert(group[i].host.host@ == h);
                }
                if h == last.host.host@ {
                    assert(group[n - 1].host.host@ == h);
                }
            }
        }
        assert(hosts.union(first_hosts(group, n)) =~= hosts.union(
            first_hosts(group, n - 1),
        ).insert(last.host.host@));
    } else {
        assert(first_hosts(group, n) =~= Set::empty());
        assert(hosts.union(first_hosts(group, n)) =~= hosts);
    }
}

proof fn lemma_group_hosts(members: Seq<SplitInfo>, color: i32)
    ensures
        first_hosts(
            by_key(of_color(members, color)),
            by_key(of_color(members, color)).len() as int,
        ) =~= hosts_of(members, seq![color]),
{
    broadcast use vstd::seq_lib::group_to_multiset_ensures;

    let part = of_color(members, color);
    let group = by_key(part);
    crate::simulator::comms::law_ranks_by_key(part, 0);
    crate::simulator::comm_laws::lemma_of_color(members, color);
    assert forall|x: SplitInfo| #[trigger] group.contains(x) <==> part.contains(x) by {
        assert(group.to_multiset().count(x) == part.to_multiset().count(x));
    }
    let n = group.len() as int;
    assert forall|h: HostName| first_hosts(group, n).contains(h) == hosts_of(
        members,
        seq![color],
    ).contains(h) by {
        if first_hosts(group, n).contains(h) {
            let i = choose|i: int| 0 <= i < n && (#[trigger] group[i]).host.host@ == h;
            assert(group.contains(group[i]));
            assert(members.contains(group[i]));
            let k = choose|k: int| 0 <= k < members.len() && members[k] == group[i];
            assert(seq![color][0] == color);
            assert(seq![color].contains(members[k].color));
        }
        if hosts_of(members, seq![color]).contains(h) {
            let i = choose|i: int|
                0 <= i < members.len() && seq![color].contains((#[trigger] members[i]).color)
                    && members[i].host.host@ == h;
            assert(members.contains(members[i]));
            assert(part.contains(members[i]));
            assert(group.contains(members[i]));
            let k = choose|k: int| 0 <= k < group.len() && group[k] == members[i];
            assert(group[k].host.host@ == h);
        }
    }
}

proof fn lemma_groups_clocks(
    before: ClockView,
    state: CommState,
    members: Seq<SplitInfo>,
    wanted: Seq<i32>,
    time: i64,
)
    requires
        all_stand_at(before, state.clock, Set::empty(), time),
    ensures
        all_stand_at(
            before,
            state.new_groups(members, wanted, time).clock,
            hosts_of(members, wanted),
            time,
        ),
    decreases wanted.len(),
{
    if wanted.len() == 0 {
        assert(hosts_of(members, wanted) =~= Set::empty());
    } else {
        let front = wanted.drop_last();
        let color = wanted.last();
        lemma_groups_clocks(before, state, members, front, time);
        let now = state.new_groups(members, front, time);
        let group = by_key(of_color(members, color));
        lemma_split_clocks(
            before,
            now.clock,
            hosts_of(members, front),
            group,
            now.comms.next,
            time,
            group.len() as int,
        );
        lemma_group_hosts(members, color);
        assert forall|h: HostName| hosts_of(members, wanted).contains(h) == hosts_of(
            members,
            front,
        ).union(hosts_of(members, seq![color])).contains(h) by {
            if hosts_of(members, wanted).contains(h) {
                let i = choose|i: int|
                    0 <= i < members.len() && wanted.contains((#[trigger] members[i]).color)
                        && members[i].host.host@ == h;
                let k = choose|k: int| 0 <= k < wanted.len() && wanted[k] == members[i].color;
                if k < front.len() {
                    assert(front[k] == members[i].color);
                    assert(front.contains(members[i].color));
                } else {
                    assert(seq![color][0] == members[i].color);
                    assert(seq![color].contains(members[i].color));
                }
            }
            if hosts_of(members, front).contains(h) {
                let i = choose|i: int|
                    0 <= i < members.len() && front.contains((#[trigger] members[i]).color)
                        && members[i].host.host@ == h;
                let k = choose|k: int| 0 <= k < front.len() && front[k] == members[i].color;
                assert(wanted[k] == members[i].color);
                assert(wanted.contains(members[i].color));
            }
            if hosts_of(members, seq![color]).contains(h) {
                let i = choose|i: int|
                    0 <= i < members.len() && seq![color].contains((#[trigger] members[i]).color)
                        && members[i].host.host@ == h;
                assert(wanted[wanted.len() - 1] == members[i].color);
                assert(wanted.contains(members[i].color));
            }
        }
        assert(hosts_of(members, wanted) =~= hosts_of(members, front).union(
            hosts_of(members, seq![color]),
        ));
    }
}

proof fn lemma_no_color_clocks(clock: ClockView, members: Seq<SplitInfo>, time: i64)
    ensures
        all_stand_at(clock, no_color_replies(clock, members), Set::empty(), time),
    decreases members.len(),
{
    if members.len() > 0 {
        lemma_no_color_clocks(clock, members.drop_last(), time);
    }
}

/// When the last rank takes part in a split, the processes of all ranks that asked for a
/// color stand at the time at which it did; those of ranks without one do not move, nor
/// does any other clock.
pub proof fn law_split_at_a_time(state: CommState, members: Seq<SplitInfo>, time: i64)
    ensures
        all_stand_at(
            state.clock,
            state.divide(members, time).clock,
            colored_hosts(members),
            time,
        ),
{
    let begin = CommState { clock: no_color_replies(state.clock, members), ..state };
    let wanted = colors(members);
    lemma_no_color_clocks(state.clock, members, time);
    lemma_groups_clocks(state.clock, begin, members, wanted, time);
    lemma_colors(members);
    assert forall|h: HostName| hosts_of(members, wanted).contains(h) == colored_hosts(
        members,
    ).contains(h) by {
        if hosts_of(members, wanted).contains(h) {
            let i = choose|i: int|
                0 <= i < members.len() && wanted.contains((#[trigger] members[i]).color)
                    && members[i].host.host@ == h;
            assert(wanted.contains(members[i].color));
            assert(members[i].color != NCCL_SPLIT_NOCOLOR);
        }
        if colored_hosts(members).contains(h) {
            let i = choose|i: int|
                0 <= i < members.len() && (#[trigger] members[i]).color != NCCL_SPLIT_NOCOLOR
                    && members[i].host.host@ == h;
            assert(wanted.contains(members[i].color));
        }
    }
    assert(hosts_of(members, wanted) =~= colored_hosts(members));
}

proof fn lemma_other_groups(
    state: CommState,
    members: Seq<SplitInfo>,
    wanted: Seq<i32>,
    time: i64,
    id: Seq<u8>,
)
    requires
        forall|a: int|
            0 <= a < wanted.len() ==> id_number(id) != #[trigger] ((id_number(state.comms.next@)
                + a) % (id_count() as int)),
    ensures
        ({
            let after = state.new_groups(members, wanted, time);
            &&& after.comms.groups.contains_key(id) <==> state.comms.groups.contains_key(id)
            &&& state.comms.groups.contains_key(id) ==> after.comms.groups[id]
                == state.comms.groups[id]
            &&& after.comms.init == state.comms.init
            &&& after.comms.split == state.comms.split
        }),
    decreases wanted.len(),
{
    if wanted.len() > 0 {
        let front = wanted.drop_last();
        lemma_other_groups(state, members, front, time, id);
        lemma_ids_counted(state, members, front, time);
        let now = state.new_groups(members, front, time);
        let a = wanted.len() - 1;
        assert(id_number(id) != (id_number(state.comms.next@) + a) % (id_count() as int));
        assert(now.comms.next@ != id);
    }
}

/// A split leaves all communicators as they are but those whose identifiers it gives out:
/// at most one for each rank, from the next one on. What else is being formed or split
/// goes on as before.
pub proof fn law_other_groups_stay(
    state: CommState,
    members: Seq<SplitInfo>,
    time: i64,
    id: Seq<u8>,
)
    requires
        forall|a: int|
            0 <= a < members.len() ==> id_number(id) != #[trigger] ((id_number(state.comms.next@)
                + a) % (id_count() as int)),
    ensures
        ({
            let after = state.divide(members, time);
            &&& after.comms.groups.contains_key(id) <==> state.comms.groups.contains_key(id)
            &&& state.comms.groups.contains_key(id) ==> after.comms.groups[id]
                == state.comms.groups[id]
            &&& after.comms.init == state.comms.init
            &&& after.comms.split == state.comms.split
        }),
{
    let begin = CommState { clock: no_color_replies(state.clock, members), ..state };
    lemma_colors(members);
    lemma_other_groups(begin, members, colors(members), time, id);
}

} // verus!
