//! Communicators: how ranks form them and how they are split.

use crate::cuda_call::{HostId, ResponseId, SplitResponse, SyncResponse, NCCL_SPLIT_NOCOLOR};
use crate::nccl_id::{
    filled_id, id_count, id_number, incr_nccl_id, law_ids_distinct, lemma_id_count,
    lemma_next_number, next_id, NcclId,
};
use crate::simulator::hosts::{ClockView, HostClock, ReplyBody};
use crate::simulator::ranks::{ranks_below, RankSet};
use crate::table::{MapKey, Table};
use vstd::prelude::*;

verus! {

/// A rank that has joined a communicator that is being formed.
#[derive(Debug, PartialEq, Eq)]
pub struct InitMember {
    pub host: ResponseId,
    pub device: i32,
}

impl View for InitMember {
    type V = InitMember;

    open spec fn view(&self) -> InitMember {
        *self
    }
}

/// A communicator that is being formed.
pub struct InitWaiting {
    joined_ranks: Table<i32, InitMember>,
    waiting_for: RankSet,
}

/// What an [`InitWaiting`] stands for.
#[verifier::ext_equal]
pub struct InitView {
    pub joined: Map<i32, InitMember>,
    pub waiting_for: Set<i32>,
}

impl View for InitWaiting {
    type V = InitView;

    closed spec fn view(&self) -> InitView {
        InitView { joined: self.joined_ranks@, waiting_for: self.waiting_for@ }
    }
}

impl InitView {
    /// With one more rank.
    pub open spec fn with_rank(self, rank: i32, member: InitMember) -> InitView {
        InitView {
            joined: self.joined.insert(rank, member),
            waiting_for: self.waiting_for.remove(rank),
        }
    }

    /// Whether all ranks below a number have joined.
    pub open spec fn has_ranks(self, nranks: i32) -> bool {
        forall|i: i32| 0 <= i < nranks ==> #[trigger] self.joined.contains_key(i)
    }

    /// The ranks below a number, in order.
    pub open spec fn members(self, nranks: i32) -> Seq<InitMember> {
        Seq::new(
            if nranks < 0 {
                0
            } else {
                nranks as nat
            },
            |i: int| self.joined[i as i32],
        )
    }
}

/// A rank that takes part in the split of a communicator.
#[derive(Debug, PartialEq, Eq)]
pub struct SplitInfo {
    pub host: ResponseId,
    pub device: i32,
    pub color: i32,
    pub key: i32,
}

impl View for SplitInfo {
    type V = SplitInfo;

    open spec fn view(&self) -> SplitInfo {
        *self
    }
}

impl Clone for SplitInfo {
    fn clone(&self) -> (r: Self)
        ensures
            r == *self,
    {
        SplitInfo {
            host: self.host.clone(),
            device: self.device,
            color: self.color,
            key: self.key,
        }
    }
}

/// A split that waits for ranks.
pub struct SplitWaiting {
    joined_ranks: Table<i32, SplitInfo>,
    waiting_for: RankSet,
}

/// What a [`SplitWaiting`] stands for.
#[verifier::ext_equal]
pub struct SplitView {
    pub joined: Map<i32, SplitInfo>,
    /// The ranks in the order in which they joined.
    pub order: Seq<i32>,
    pub waiting_for: Set<i32>,
}

impl View for SplitWaiting {
    type V = SplitView;

    closed spec fn view(&self) -> SplitView {
        SplitView {
            joined: self.joined_ranks@,
            order: self.joined_ranks.keys(),
            waiting_for: self.waiting_for@,
        }
    }
}

impl SplitView {
    /// With one more rank.
    pub open spec fn with_rank(self, rank: i32, info: SplitInfo) -> SplitView {
        SplitView {
            joined: self.joined.insert(rank, info),
            order: if self.joined.contains_key(rank) {
                self.order
            } else {
                self.order.push(rank)
            },
            waiting_for: self.waiting_for.remove(rank),
        }
    }

    /// What the ranks asked for, in the order in which they joined.
    pub open spec fn members(self) -> Seq<SplitInfo> {
        self.order.map_values(|r: i32| self.joined[r])
    }
}

/// The colors that some ranks asked for, in the order in which they come up.
pub open spec fn colors(members: Seq<SplitInfo>) -> Seq<i32>
    decreases members.len(),
{
    if members.len() == 0 {
        seq![]
    } else {
        let before = colors(members.drop_last());
        let color = members.last().color;
        if color == NCCL_SPLIT_NOCOLOR || before.contains(color) {
            before
        } else {
            before.push(color)
        }
    }
}

/// The ranks that asked for a color.
pub open spec fn of_color(members: Seq<SplitInfo>, color: i32) -> Seq<SplitInfo> {
    members.filter(|m: SplitInfo| m.color == color)
}

/// With a rank put behind all ranks whose keys are not larger.
pub open spec fn placed(sorted: Seq<SplitInfo>, info: SplitInfo) -> Seq<SplitInfo>
    decreases sorted.len(),
{
    if sorted.len() == 0 || sorted.last().key <= info.key {
        sorted.push(info)
    } else {
        placed(sorted.drop_last(), info).push(sorted.last())
    }
}

/// Some ranks ordered by their keys. Those with the same key keep their order.
pub open spec fn by_key(members: Seq<SplitInfo>) -> Seq<SplitInfo>
    decreases members.len(),
{
    if members.len() == 0 {
        seq![]
    } else {
        placed(by_key(members.drop_last()), members.last())
    }
}

/// After the ranks that asked for no communicator were told so.
pub open spec fn no_color_replies(clock: ClockView, members: Seq<SplitInfo>) -> ClockView
    decreases members.len(),
{
    if members.len() == 0 {
        clock
    } else {
        let before = no_color_replies(clock, members.drop_last());
        if members.last().color == NCCL_SPLIT_NOCOLOR {
            before.reply(members.last().host, ReplyBody::NoColor)
        } else {
            before
        }
    }
}

/// After the first `n` ranks of a new communicator were told of it.
pub open spec fn split_replies(
    clock: ClockView,
    group: Seq<SplitInfo>,
    id: [u8; 128],
    curr_time: i64,
    n: int,
) -> ClockView
    decreases n,
{
    if n <= 0 {
        clock
    } else {
        split_replies(clock, group, id, curr_time, n - 1).reply(
            group[n - 1].host,
            ReplyBody::Split(
                SplitResponse {
                    rank: (n - 1) as i32,
                    nranks: group.len() as i32,
                    id,
                    sync: SyncResponse { end_time: curr_time },
                },
            ),
        ).synced(group[n - 1].host.host@, curr_time, None)
    }
}

/// After the ranks of a new communicator were told that it is there.
pub open spec fn init_replies(
    clock: ClockView,
    members: Seq<InitMember>,
    curr_time: i64,
) -> ClockView
    decreases members.len(),
{
    if members.len() == 0 {
        clock
    } else {
        init_replies(clock, members.drop_last(), curr_time).sync_reply(
            members.last().host,
            curr_time,
            None,
        )
    }
}

/// What a [`Comms`] stands for.
#[verifier::ext_equal]
pub struct CommsView {
    /// The members of each communicator, by rank.
    pub groups: Map<Seq<u8>, Seq<(HostId, i32)>>,
    /// The communicators that are being formed.
    pub init: Map<Seq<u8>, InitView>,
    /// The splits that wait for ranks.
    pub split: Map<Seq<u8>, SplitView>,
    /// The identifier that is given out next.
    pub next: [u8; 128],
}

/// The communicators and the clocks.
#[verifier::ext_equal]
pub struct CommState {
    pub comms: CommsView,
    pub clock: ClockView,
}

/// The device of the first member that runs in a process, or else the first.
pub open spec fn device_of(members: Seq<(HostId, i32)>, host: (Seq<char>, u32), i: int) -> i32
    decreases members.len() - i,
{
    if i < 0 || i >= members.len() {
        0
    } else if members[i].0@ == host {
        members[i].1
    } else {
        device_of(members, host, i + 1)
    }
}

impl CommState {
    /// After an identifier was given out.
    pub open spec fn unique_id(self, host: ResponseId) -> CommState {
        CommState {
            comms: CommsView { next: next_id(self.comms.next), ..self.comms },
            clock: self.clock.reply(host, ReplyBody::UniqueId(self.comms.next)),
        }
    }

    /// After a rank joined a communicator that is being formed. Once no rank is
    /// waited for any longer, the communicator is there and all its ranks are told.
    pub open spec fn init_rank(
        self,
        host: ResponseId,
        curr_time: i64,
        device: i32,
        rank: i32,
        nranks: i32,
        id: Seq<u8>,
    ) -> CommState {
        let member = InitMember { host, device };
        if !self.comms.init.contains_key(id) {
            let group = InitView {
                joined: Map::empty().insert(rank, member),
                waiting_for: ranks_below(nranks).remove(rank),
            };
            CommState {
                comms: CommsView { init: self.comms.init.insert(id, group), ..self.comms },
                ..self
            }
        } else {
            let group = self.comms.init[id].with_rank(rank, member);
            if group.waiting_for =~= Set::empty() {
                let members = group.members(nranks);
                CommState {
                    comms: CommsView {
                        init: self.comms.init.remove(id),
                        groups: self.comms.groups.insert(
                            id,
                            members.map_values(|m: InitMember| (m.host.host, m.device)),
                        ),
                        ..self.comms
                    },
                    clock: init_replies(self.clock, members, curr_time),
                }
            } else {
                CommState {
                    comms: CommsView { init: self.comms.init.insert(id, group), ..self.comms },
                    ..self
                }
            }
        }
    }

    /// After the ranks of one color formed a communicator.
    pub open spec fn new_group(self, group: Seq<SplitInfo>, curr_time: i64) -> CommState {
        let id = self.comms.next;
        CommState {
            comms: CommsView {
                groups: self.comms.groups.insert(
                    id@,
                    group.map_values(|m: SplitInfo| (m.host.host, m.device)),
                ),
                next: next_id(id),
                ..self.comms
            },
            clock: split_replies(self.clock, group, id, curr_time, group.len() as int),
        }
    }

    /// After the ranks of some colors formed a communicator each.
    pub open spec fn new_groups(
        self,
        members: Seq<SplitInfo>,
        wanted: Seq<i32>,
        curr_time: i64,
    ) -> CommState
        decreases wanted.len(),
    {
        if wanted.len() == 0 {
            self
        } else {
            self.new_groups(members, wanted.drop_last(), curr_time).new_group(
                by_key(of_color(members, wanted.last())),
                curr_time,
            )
        }
    }

    /// After all ranks took part in a split: those without a color are told so, and
    /// those of each color form a communicator, ordered by their keys.
    pub open spec fn divide(self, members: Seq<SplitInfo>, curr_time: i64) -> CommState {
        (CommState { clock: no_color_replies(self.clock, members), ..self }).new_groups(
            members,
            colors(members),
            curr_time,
        )
    }

    /// After a rank took part in the split of a communicator.
    pub open spec fn split(
        self,
        host: ResponseId,
        curr_time: i64,
        rank: i32,
        id: Seq<u8>,
        color: i32,
        key: i32,
    ) -> CommState {
        if !self.comms.groups.contains_key(id) {
            CommState {
                clock: self.clock.reply(
                    host,
                    ReplyBody::Split(
                        SplitResponse {
                            rank: 0,
                            nranks: 0,
                            id: filled_id(128),
                            sync: SyncResponse { end_time: curr_time },
                        },
                    ),
                ),
                ..self
            }
        } else {
            let hosts = self.comms.groups[id];
            let info = SplitInfo { host, device: device_of(hosts, host.host@, 0), color, key };
            if !self.comms.split.contains_key(id) {
                let waiting = SplitView {
                    joined: Map::empty().insert(rank, info),
                    order: seq![rank],
                    waiting_for: ranks_below(hosts.len() as i32).remove(rank),
                };
                CommState {
                    comms: CommsView {
                        split: self.comms.split.insert(id, waiting),
                        ..self.comms
                    },
                    ..self
                }
            } else {
                let waiting = self.comms.split[id].with_rank(rank, info);
                if waiting.waiting_for =~= Set::empty() {
                    (CommState {
                        comms: CommsView { split: self.comms.split.remove(id), ..self.comms },
                        ..self
                    }).divide(waiting.members(), curr_time)
                } else {
                    CommState {
                        comms: CommsView {
                            split: self.comms.split.insert(id, waiting),
                            ..self.comms
                        },
                        ..self
                    }
                }
            }
        }
    }
}

/// Orders ranks by their keys.
fn sort_by_key(members: &Vec<SplitInfo>, color: i32) -> (r: Vec<SplitInfo>)
    ensures
        r@ == by_key(of_color(members@, color)),
{
    let mut r: Vec<SplitInfo> = Vec::new();
    let mut i: usize = 0;
    proof {
        reveal(Seq::filter);
    }
    assert(of_color(members@.take(0), color) =~= seq![]);
    while i < members.len()
        invariant
            i <= members.len(),
            r@ == by_key(of_color(members@.take(i as int), color)),
        decreases members.len() - i,
    {
        proof {
            reveal(Seq::filter);
            assert(members@.take(i + 1).drop_last() =~= members@.take(i as int));
        }
        if members[i].color == color {
            let ghost part = of_color(members@.take(i as int), color);
            assert(part.push(members@[i as int]).drop_last() =~= part);
            place(&mut r, members[i].clone());
        }
        i += 1;
    }
    assert(members@.take(members@.len() as int) =~= members@);
    r
}

/// Puts a rank behind all ranks whose keys are not larger.
fn place(sorted: &mut Vec<SplitInfo>, info: SplitInfo)
    ensures
        final(sorted)@ == placed(old(sorted)@, info),
{
    let ghost all = sorted@;
    let mut n: usize = sorted.len();
    assert(all.take(n as int) =~= all);
    assert(all.skip(n as int) =~= seq![]);
    assert(placed(all, info) =~= placed(all.take(n as int), info) + all.skip(n as int));
    while n > 0 && sorted[n - 1].key > info.key
        invariant
            n <= all.len(),
            sorted@ == all,
            placed(all, info) == placed(all.take(n as int), info) + all.skip(n as int),
        decreases n,
    {
        proof {
            let front = all.take(n as int);
            assert(front.drop_last() =~= all.take(n - 1));
            assert(seq![all[n - 1]] + all.skip(n as int) =~= all.skip(n - 1));
            assert(placed(front, info) =~= placed(all.take(n - 1), info).push(all[n - 1]));
            assert(placed(all, info) =~= placed(all.take(n - 1), info) + all.skip(n - 1));
        }
        n -= 1;
    }
    proof {
        assert(placed(all.take(n as int), info) =~= all.take(n as int).push(info));
        assert(placed(all, info) =~= all.insert(n as int, info));
    }
    sorted.insert(n, info);
}

/// The colors that some ranks asked for.
fn collect_colors(members: &Vec<SplitInfo>) -> (r: Vec<i32>)
    ensures
        r@ == colors(members@),
{
    let mut r: Vec<i32> = Vec::new();
    let mut i: usize = 0;
    while i < members.len()
        invariant
            i <= members.len(),
            r@ == colors(members@.take(i as int)),
        decreases members.len() - i,
    {
        assert(members@.take(i + 1).drop_last() =~= members@.take(i as int));
        let color = members[i].color;
        let mut known = color == NCCL_SPLIT_NOCOLOR;
        let mut j: usize = 0;
        while j < r.len()
            invariant
                j <= r.len(),
                known == (color == NCCL_SPLIT_NOCOLOR || exists|k: int| 0 <= k < j && r@[k] == color),
            decreases r.len() - j,
        {
            if r[j] == color {
                known = true;
                assert(r@[j as int] == color);
            }
            j += 1;
        }
        assert(known == (color == NCCL_SPLIT_NOCOLOR || r@.contains(color)));
        if !known {
            r.push(color);
        }
        i += 1;
    }
    assert(members@.take(members@.len() as int) =~= members@);
    r
}

/// The communicators of a simulation.
pub struct Comms {
    comm_groups: Table<NcclId, Vec<(HostId, i32)>>,
    init_waiting: Table<NcclId, InitWaiting>,
    split_waiting: Table<NcclId, SplitWaiting>,
    nccl_unique_id: [u8; 128],
}

impl View for Comms {
    type V = CommsView;

    closed spec fn view(&self) -> CommsView {
        CommsView {
            groups: self.comm_groups@,
            init: self.init_waiting@,
            split: self.split_waiting@,
            next: self.nccl_unique_id,
        }
    }
}

impl Comms {
    /// No communicator. Identifiers are counted from zero bytes.
    pub fn new() -> (c: Self)
        ensures
            c@ == (CommsView {
                groups: Map::empty(),
                init: Map::empty(),
                split: Map::empty(),
                next: filled_id(0),
            }),
    {
        Comms {
            comm_groups: Table::new(),
            init_waiting: Table::new(),
            split_waiting: Table::new(),
            nccl_unique_id: [0u8; 128],
        }
    }

    /// The members of a communicator, by rank.
    pub fn group(&self, id: &NcclId) -> (r: Option<&Vec<(HostId, i32)>>)
        ensures
            match r {
                Some(g) => self@.groups.contains_key(id@) && g@ == self@.groups[id@],
                None => !self@.groups.contains_key(id@),
            },
    {
        self.comm_groups.get(id)
    }

    /// Gives out an identifier.
    pub fn nccl_get_unique_id(&mut self, clock: &mut HostClock, host: ResponseId)
        ensures
            (CommState { comms: final(self)@, clock: final(clock)@ }) == (CommState {
                comms: old(self)@,
                clock: old(clock)@,
            }).unique_id(host),
    {
        let id = incr_nccl_id(&mut self.nccl_unique_id);
        clock.send_response_to(host, ReplyBody::UniqueId(id));
    }

    /// Whether a rank can join a communicator that is being formed: all ranks are
    /// there once no rank is waited for any longer.
    pub fn can_init(&self, rank: i32, nranks: i32, id: &NcclId) -> (b: bool)
        ensures
            b == self@.can_init(rank, nranks, id@),
    {
        match self.init_waiting.get(id) {
            None => true,
            Some(group) => !group.waiting_for.none_but(rank) || group.has_ranks(rank, nranks),
        }
    }

    /// Lets a rank join a communicator that is being formed.
    pub fn nccl_comm_init_rank(
        &mut self,
        clock: &mut HostClock,
        host: ResponseId,
        curr_time: i64,
        device: i32,
        rank: i32,
        nranks: i32,
        id: [u8; 128],
    )
        requires
            old(self)@.can_init(rank, nranks, id@),
        ensures
            (CommState { comms: final(self)@, clock: final(clock)@ }) == (CommState {
                comms: old(self)@,
                clock: old(clock)@,
            }).init_rank(host, curr_time, device, rank, nranks, id@),
    {
        let nccl_id = NcclId(id);
        let member = InitMember { host, device };
        let mut complete = false;
        if let Some(group) = self.init_waiting.get_mut(&nccl_id) {
            let ghost before = group@;
            group.waiting_for.remove(rank);
            group.joined_ranks.insert(rank, member);
            assert(group@ =~= before.with_rank(rank, member));
            complete = group.waiting_for.is_empty();
        } else {
            let mut joined_ranks: Table<i32, InitMember> = Table::new();
            joined_ranks.insert(rank, member);
            let group = InitWaiting { joined_ranks, waiting_for: RankSet::others(nranks, rank) };
            self.init_waiting.insert(nccl_id, group);
        }
        if complete {
            if let Some(group) = self.init_waiting.remove(&nccl_id) {
                let ghost all = group@.members(nranks);
                let ghost first = clock@;
                let mut ranks: Vec<(HostId, i32)> = Vec::new();
                let mut i: i32 = 0;
                assert(all.take(0) =~= seq![]);
                while i < nranks
                    invariant
                        0 <= i,
                        i <= nranks || i == 0,
                        group@.has_ranks(nranks),
                        all == group@.members(nranks),
                        ranks@ == all.take(i as int).map_values(
                            |m: InitMember| (m.host.host, m.device),
                        ),
                        clock@ == init_replies(first, all.take(i as int), curr_time),
                    decreases nranks - i,
                {
                    assert(group@.joined.contains_key(i));
                    if let Some(m) = group.joined_ranks.get(&i) {
                        clock.send_sync_response_to(m.host.clone(), curr_time, None);
                        ranks.push((m.host.host.clone(), m.device));
                        proof {
                            assert(all[i as int] == *m);
                            assert(all.take(i + 1).drop_last() =~= all.take(i as int));
                            assert(ranks@ =~= all.take(i + 1).map_values(
                                |m: InitMember| (m.host.host, m.device),
                            ));
                        }
                    }
                    i += 1;
                }
                assert(all.take(all.len() as int) =~= all);
                self.comm_groups.insert(nccl_id, ranks);
            }
        }
        assert(self@.init =~= (CommState { comms: old(self)@, clock: old(clock)@ }).init_rank(
            member.host,
            curr_time,
            device,
            rank,
            nranks,
            id@,
        ).comms.init);
    }

    /// Gives the ranks of one color a communicator, ordered by their keys.
    fn new_group(&mut self, clock: &mut HostClock, group: &Vec<SplitInfo>, curr_time: i64)
        ensures
            (CommState { comms: final(self)@, clock: final(clock)@ }) == (CommState {
                comms: old(self)@,
                clock: old(clock)@,
            }).new_group(group@, curr_time),
    {
        let ghost first = clock@;
        let new_id = incr_nccl_id(&mut self.nccl_unique_id);
        let mut ranks: Vec<(HostId, i32)> = Vec::new();
        let mut i: usize = 0;
        while i < group.len()
            invariant
                i <= group.len(),
                ranks@ == group@.take(i as int).map_values(
                    |m: SplitInfo| (m.host.host, m.device),
                ),
                clock@ == split_replies(first, group@, new_id, curr_time, i as int),
            decreases group.len() - i,
        {
            let info = &group[i];
            clock.send_response_to(
                info.host.clone(),
                ReplyBody::Split(
                    SplitResponse {
                        rank: #[verifier::truncate]
                        (i as i32),
                        nranks: #[verifier::truncate]
                        (group.len() as i32),
                        id: new_id,
                        sync: SyncResponse { end_time: curr_time },
                    },
                ),
            );
            clock.update_host_sync(&info.host.host, curr_time, None);
            ranks.push((info.host.host.clone(), info.device));
            assert(ranks@ =~= group@.take(i + 1).map_values(
                |m: SplitInfo| (m.host.host, m.device),
            ));
            i += 1;
        }
        assert(group@.take(group@.len() as int) =~= group@);
        self.comm_groups.insert(NcclId(new_id), ranks);
    }

    /// Ends a split in which all ranks took part.
    fn divide(&mut self, clock: &mut HostClock, members: &Vec<SplitInfo>, curr_time: i64)
        ensures
            (CommState { comms: final(self)@, clock: final(clock)@ }) == (CommState {
                comms: old(self)@,
                clock: old(clock)@,
            }).divide(members@, curr_time),
    {
        let ghost first = clock@;
        let mut i: usize = 0;
        while i < members.len()
            invariant
                i <= members.len(),
                clock@ == no_color_replies(first, members@.take(i as int)),
            decreases members.len() - i,
        {
            if members[i].color == NCCL_SPLIT_NOCOLOR {
                clock.send_response_to(members[i].host.clone(), ReplyBody::NoColor);
            }
            assert(members@.take(i + 1).drop_last() =~= members@.take(i as int));
            i += 1;
        }
        assert(members@.take(members@.len() as int) =~= members@);
        let ghost begin = CommState { comms: self@, clock: clock@ };
        let wanted = collect_colors(members);
        let mut j: usize = 0;
        assert(wanted@.take(0) =~= seq![]);
        while j < wanted.len()
            invariant
                j <= wanted.len(),
                (CommState { comms: self@, clock: clock@ }) == begin.new_groups(
                    members@,
                    wanted@.take(j as int),
                    curr_time,
                ),
            decreases wanted.len() - j,
        {
            let group = sort_by_key(members, wanted[j]);
            self.new_group(clock, &group, curr_time);
            assert(wanted@.take(j + 1).drop_last() =~= wanted@.take(j as int));
            j += 1;
        }
        assert(wanted@.take(wanted@.len() as int) =~= wanted@);
    }

    /// Lets a rank take part in the split of a communicator.
    pub fn nccl_comm_split(
        &mut self,
        clock: &mut HostClock,
        host: ResponseId,
        curr_time: i64,
        rank: i32,
        id: [u8; 128],
        color: i32,
        key: i32,
    )
        ensures
            (CommState { comms: final(self)@, clock: final(clock)@ }) == (CommState {
                comms: old(self)@,
                clock: old(clock)@,
            }).split(host, curr_time, rank, id@, color, key),
    {
        let nccl_id = NcclId(id);
        let mut device: i32 = 0;
        let mut nranks: i32 = 0;
        match self.comm_groups.get(&nccl_id) {
            Some(hosts) => {
                device = find_device(hosts, &host.host);
                nranks =
                #[verifier::truncate]
                (hosts.len() as i32);
            },
            None => {
                clock.send_response_to(
                    host,
                    ReplyBody::Split(
                        SplitResponse {
                            rank: 0,
                            nranks: 0,
                            id: [128u8; 128],
                            sync: SyncResponse { end_time: curr_time },
                        },
                    ),
                );
                return;
            },
        }
        let info = SplitInfo { host, device, color, key };
        let mut complete = false;
        if let Some(waiting) = self.split_waiting.get_mut(&nccl_id) {
            let ghost before = waiting@;
            waiting.waiting_for.remove(rank);
            waiting.joined_ranks.insert(rank, info);
            assert(waiting@ =~= before.with_rank(rank, info));
            complete = waiting.waiting_for.is_empty();
        } else {
            let mut joined_ranks: Table<i32, SplitInfo> = Table::new();
            joined_ranks.insert(rank, info);
            let waiting = SplitWaiting {
                joined_ranks,
                waiting_for: RankSet::others(nranks, rank),
            };
            assert(waiting@.order =~= seq![rank]);
            self.split_waiting.insert(nccl_id, waiting);
        }
        if complete {
            if let Some(waiting) = self.split_waiting.remove(&nccl_id) {
                let members = waiting.members();
                assert(self@.split =~= old(self)@.split.remove(id@));
                self.divide(clock, &members, curr_time);
            }
        }
    }
}

impl CommsView {
    /// Whether a rank can join a communicator that is being formed: all ranks are
    /// there once no rank is waited for any longer.
    pub open spec fn can_init(self, rank: i32, nranks: i32, id: Seq<u8>) -> bool {
        self.init.contains_key(id) && self.init[id].waiting_for.remove(rank) =~= Set::empty()
            ==> forall|i: i32|
            0 <= i < nranks && i != rank ==> #[trigger] self.init[id].joined.contains_key(i)
    }
}

impl InitWaiting {
    /// Whether all ranks below a number but one have joined.
    fn has_ranks(&self, rank: i32, nranks: i32) -> (b: bool)
        ensures
            b == forall|i: i32|
                0 <= i < nranks && i != rank ==> #[trigger] self@.joined.contains_key(i),
    {
        let mut i: i32 = 0;
        while i < nranks
            invariant
                0 <= i,
                i <= nranks || i == 0,
                forall|k: i32|
                    0 <= k < i && k != rank ==> #[trigger] self@.joined.contains_key(k),
            decreases nranks - i,
        {
            if i != rank && !self.joined_ranks.contains_key(&i) {
                assert(!self@.joined.contains_key(i));
                return false;
            }
            i += 1;
        }
        true
    }
}

impl SplitWaiting {
    /// What the ranks asked for, in the order in which they joined.
    fn members(&self) -> (r: Vec<SplitInfo>)
        ensures
            r@ == self@.members(),
    {
        let mut r: Vec<SplitInfo> = Vec::new();
        let mut i: usize = 0;
        while i < self.joined_ranks.len()
            invariant
                i <= self.joined_ranks.keys().len(),
                r@ == self@.members().take(i as int),
            decreases self.joined_ranks.keys().len() - i,
        {
            let rank = self.joined_ranks.key_at(i);
            if let Some(info) = self.joined_ranks.get(rank) {
                r.push(info.clone());
            }
            assert(r@ =~= self@.members().take(i + 1));
            i += 1;
        }
        assert(r@ =~= self@.members());
        r
    }
}

/// The device of the first member that runs in a process, or else the first.
fn find_device(members: &Vec<(HostId, i32)>, host: &HostId) -> (d: i32)
    ensures
        d == device_of(members@, host@, 0),
{
    let mut i: usize = 0;
    while i < members.len()
        invariant
            i <= members.len(),
            device_of(members@, host@, 0) == device_of(members@, host@, i as int),
        decreases members.len() - i,
    {
        if members[i].0.same_key(host) {
            return members[i].1;
        }
        i += 1;
    }
    0
}

/// Whether some ranks are in the order of their keys.
pub open spec fn ordered(members: Seq<SplitInfo>) -> bool {
    forall|i: int, j: int|
        0 <= i < j < members.len() ==> (#[trigger] members[i]).key <= (#[trigger] members[j]).key
}

/// The ranks with a key, in their order.
pub open spec fn with_key(members: Seq<SplitInfo>, key: i32) -> Seq<SplitInfo> {
    members.filter(|m: SplitInfo| m.key == key)
}

proof fn lemma_with_key_push(members: Seq<SplitInfo>, info: SplitInfo, key: i32)
    ensures
        with_key(members.push(info), key) == if info.key == key {
            with_key(members, key).push(info)
        } else {
            with_key(members, key)
        },
{
    reveal(Seq::filter);
    assert(members.push(info).drop_last() =~= members);
}

proof fn lemma_with_key_none(members: Seq<SplitInfo>, key: i32)
    requires
        forall|i: int| 0 <= i < members.len() ==> (#[trigger] members[i]).key != key,
    ensures
        with_key(members, key) == Seq::<SplitInfo>::empty(),
    decreases members.len(),
{
    reveal(Seq::filter);
    if members.len() > 0 {
        assert(members[members.len() - 1].key != key);
        lemma_with_key_none(members.drop_last(), key);
    }
}

proof fn lemma_placed(sorted: Seq<SplitInfo>, info: SplitInfo, key: i32)
    requires
        ordered(sorted),
    ensures
        ordered(placed(sorted, info)),
        placed(sorted, info).to_multiset() == sorted.to_multiset().insert(info),
        with_key(placed(sorted, info), key) == with_key(sorted.push(info), key),
        forall|i: int|
            0 <= i < placed(sorted, info).len() ==> (#[trigger] placed(sorted, info)[i]) == info
                || exists|j: int| 0 <= j < sorted.len() && sorted[j] == placed(sorted, info)[i],
    decreases sorted.len(),
{
    broadcast use vstd::seq_lib::group_to_multiset_ensures;

    if sorted.len() > 0 && sorted.last().key > info.key {
        let front = sorted.drop_last();
        let last = sorted.last();
        lemma_placed(front, info, key);
        let inner = placed(front, info);
        assert(sorted =~= front.push(last));
        assert(placed(sorted, info) == inner.push(last));
        assert forall|i: int| 0 <= i < inner.len() implies (#[trigger] inner[i]).key
            <= last.key by {
            if inner[i] != info {
                let j = choose|j: int| 0 <= j < front.len() && front[j] == inner[i];
                assert(sorted[j].key <= sorted[sorted.len() - 1].key);
            }
        }
        assert(inner.push(last).to_multiset() =~= sorted.to_multiset().insert(info));
        lemma_with_key_push(inner, last, key);
        lemma_with_key_push(front, info, key);
        lemma_with_key_push(front, last, key);
        lemma_with_key_push(sorted, info, key);
        assert forall|i: int| 0 <= i < inner.push(last).len() implies (#[trigger] inner.push(
            last,
        )[i]) == info || exists|j: int|
            0 <= j < sorted.len() && sorted[j] == inner.push(last)[i] by {
            if i < inner.len() {
                if inner[i] != info {
                    let j = choose|j: int| 0 <= j < front.len() && front[j] == inner[i];
                    assert(sorted[j] == inner.push(last)[i]);
                }
            } else {
                assert(sorted[sorted.len() - 1] == inner.push(last)[i]);
            }
        }
    } else {
        assert forall|i: int, j: int| 0 <= i < j < sorted.push(info).len() implies (
        #[trigger] sorted.push(info)[i]).key <= (#[trigger] sorted.push(info)[j]).key by {
            if j == sorted.len() && i < sorted.len() - 1 {
                assert(sorted[i].key <= sorted[sorted.len() - 1].key);
            }
        }
        assert forall|i: int| 0 <= i < sorted.push(info).len() implies (#[trigger] sorted.push(
            info,
        )[i]) == info || exists|j: int|
            0 <= j < sorted.len() && sorted[j] == sorted.push(info)[i] by {
            if i < sorted.len() {
                assert(sorted[i] == sorted.push(info)[i]);
            }
        }
    }
}

/// The ranks of a new communicator are those that asked for its color, in the
/// order of their keys. Ranks with the same key keep the order in which they
/// joined.
pub proof fn law_ranks_by_key(members: Seq<SplitInfo>, key: i32)
    ensures
        ordered(by_key(members)),
        by_key(members).to_multiset() == members.to_multiset(),
        with_key(by_key(members), key) == with_key(members, key),
    decreases members.len(),
{
    broadcast use vstd::seq_lib::group_to_multiset_ensures;

    if members.len() > 0 {
        let front = members.drop_last();
        law_ranks_by_key(front, key);
        lemma_placed(by_key(front), members.last(), key);
        lemma_with_key_push(by_key(front), members.last(), key);
        lemma_with_key_push(front, members.last(), key);
        assert(front.push(members.last()) =~= members);
    } else {
        assert(members =~= seq![]);
    }
}

/// The number of the identifier that is given out next once some communicators
/// were formed.
pub proof fn lemma_ids_counted(
    state: CommState,
    members: Seq<SplitInfo>,
    wanted: Seq<i32>,
    curr_time: i64,
)
    ensures
        id_number(state.new_groups(members, wanted, curr_time).comms.next@) == (id_number(
            state.comms.next@,
        ) + wanted.len()) % id_count(),
    decreases wanted.len(),
{
    let m = id_count() as int;
    let start = id_number(state.comms.next@) as int;
    lemma_id_count(state.comms.next);
    if wanted.len() == 0 {
        vstd::arithmetic::div_mod::lemma_small_mod(start as nat, m as nat);
    } else {
        let before = state.new_groups(members, wanted.drop_last(), curr_time);
        lemma_ids_counted(state, members, wanted.drop_last(), curr_time);
        lemma_next_number(before.comms.next);
        let n = start + wanted.len() - 1;
        vstd::arithmetic::div_mod::lemma_add_mod_noop(n % m, 1, m);
        vstd::arithmetic::div_mod::lemma_add_mod_noop(n, 1, m);
        vstd::arithmetic::div_mod::lemma_mod_twice(n, m);
    }
}

/// Communicators that come out of one split have different identifiers.
pub proof fn law_split_ids_distinct(
    state: CommState,
    members: Seq<SplitInfo>,
    wanted: Seq<i32>,
    curr_time: i64,
    a: int,
    b: int,
)
    requires
        0 <= a < b < wanted.len(),
        wanted.len() <= id_count(),
    ensures
        state.new_groups(members, wanted.take(a), curr_time).comms.next@ != state.new_groups(
            members,
            wanted.take(b),
            curr_time,
        ).comms.next@,
{
    lemma_ids_counted(state, members, wanted.take(a), curr_time);
    lemma_ids_counted(state, members, wanted.take(b), curr_time);
    law_ids_distinct(id_number(state.comms.next@), a as nat, b as nat);
}

/// A communicator comes into being only when every rank below the given number
/// has joined, and each of them is told so once, in the order of the ranks: its wait has
/// ended at the time at which the last one joined.
pub proof fn law_init_complete(
    state: CommState,
    host: ResponseId,
    curr_time: i64,
    device: i32,
    rank: i32,
    nranks: i32,
    id: Seq<u8>,
)
    requires
        state.comms.can_init(rank, nranks, id),
        state.comms.init.contains_key(id),
        0 <= rank < nranks,
    ensures
        ({
            let after = state.init_rank(host, curr_time, device, rank, nranks, id);
            let group = state.comms.init[id].with_rank(rank, InitMember { host, device });
            if after.comms.init.contains_key(id) {
                &&& after.comms.groups == state.comms.groups
                &&& after.clock == state.clock
            } else {
                &&& group.has_ranks(nranks)
                &&& after.comms.groups.contains_key(id)
                &&& after.comms.groups[id].len() == nranks
                &&& after.clock.replies.len() == state.clock.replies.len() + nranks
                &&& forall|i: int|
                    0 <= i < nranks ==> (#[trigger] after.comms.groups[id][i]) == (
                    group.joined[i as i32].host.host, group.joined[i as i32].device)
                &&& forall|i: int|
                    0 <= i < nranks ==> (#[trigger] after.clock.replies[state.clock.replies.len()
                        + i]).to == group.joined[i as i32].host && after.clock.replies[
                    state.clock.replies.len() + i].body == ReplyBody::Sync(
                        SyncResponse { end_time: curr_time },
                    )
            }
        }),
{
    let after = state.init_rank(host, curr_time, device, rank, nranks, id);
    let group = state.comms.init[id].with_rank(rank, InitMember { host, device });
    if group.waiting_for =~= Set::empty() {
        lemma_init_replies(state.clock, group.members(nranks), curr_time);
        assert forall|i: int| 0 <= i < nranks implies (#[trigger] after.clock.replies[
            state.clock.replies.len() + i]).to == group.joined[i as i32].host && after.clock.replies[
        state.clock.replies.len() + i].body == ReplyBody::Sync(
            SyncResponse { end_time: curr_time },
        ) by {
            assert(group.members(nranks)[i] == group.joined[i as i32]);
        }
    }
}

proof fn lemma_init_replies(clock: ClockView, members: Seq<InitMember>, curr_time: i64)
    ensures
        init_replies(clock, members, curr_time).replies.len() == clock.replies.len()
            + members.len(),
        forall|i: int|
            0 <= i < members.len() ==> (#[trigger] init_replies(
                clock,
                members,
                curr_time,
            ).replies[clock.replies.len() + i]).to == members[i].host && init_replies(
                clock,
                members,
                curr_time,
            ).replies[clock.replies.len() + i].body == ReplyBody::Sync(
                SyncResponse { end_time: curr_time },
            ),
    decreases members.len(),
{
    if members.len() > 0 {
        let front = members.drop_last();
        lemma_init_replies(clock, front, curr_time);
        let before = init_replies(clock, front, curr_time).replies;
        let after = init_replies(clock, members, curr_time).replies;
        assert forall|i: int| 0 <= i < members.len() implies (#[trigger] after[clock.replies.len()
            + i]).to == members[i].host && after[clock.replies.len() + i].body == ReplyBody::Sync(
            SyncResponse { end_time: curr_time },
        ) by {
            if i < front.len() {
                assert(after[clock.replies.len() + i] == before[clock.replies.len() + i]);
            }
        }
    }
}

proof fn lemma_init_forward(clock: ClockView, members: Seq<InitMember>, curr_time: i64)
    ensures
        init_replies(clock, members, curr_time).not_before(clock),
        init_replies(clock, members, curr_time).syncing == clock.syncing,
    decreases members.len(),
{
    if members.len() > 0 {
        lemma_init_forward(clock, members.drop_last(), curr_time);
    }
}

proof fn lemma_no_color_forward(clock: ClockView, members: Seq<SplitInfo>)
    ensures
        no_color_replies(clock, members).not_before(clock),
        no_color_replies(clock, members).syncing == clock.syncing,
    decreases members.len(),
{
    if members.len() > 0 {
        lemma_no_color_forward(clock, members.drop_last());
    }
}

proof fn lemma_split_forward(
    clock: ClockView,
    group: Seq<SplitInfo>,
    id: [u8; 128],
    curr_time: i64,
    n: int,
)
    ensures
        split_replies(clock, group, id, curr_time, n).not_before(clock),
        split_replies(clock, group, id, curr_time, n).syncing == clock.syncing,
    decreases n,
{
    if n > 0 {
        lemma_split_forward(clock, group, id, curr_time, n - 1);
    }
}

proof fn lemma_groups_forward(
    state: CommState,
    members: Seq<SplitInfo>,
    wanted: Seq<i32>,
    curr_time: i64,
)
    ensures
        state.new_groups(members, wanted, curr_time).clock.not_before(state.clock),
        state.new_groups(members, wanted, curr_time).clock.syncing == state.clock.syncing,
    decreases wanted.len(),
{
    if wanted.len() > 0 {
        lemma_groups_forward(state, members, wanted.drop_last(), curr_time);
        let before = state.new_groups(members, wanted.drop_last(), curr_time);
        let group = by_key(of_color(members, wanted.last()));
        lemma_split_forward(
            before.clock,
            group,
            before.comms.next,
            curr_time,
            group.len() as int,
        );
    }
}

/// Forming or splitting a communicator sets no clock back, and leaves the threads that
/// wait for events alone.
pub proof fn law_comms_step_forward(
    state: CommState,
    host: ResponseId,
    curr_time: i64,
    device: i32,
    rank: i32,
    nranks: i32,
    id: Seq<u8>,
    color: i32,
    key: i32,
)
    ensures
        state.unique_id(host).clock.not_before(state.clock),
        state.init_rank(host, curr_time, device, rank, nranks, id).clock.not_before(state.clock),
        state.split(host, curr_time, rank, id, color, key).clock.not_before(state.clock),
        state.unique_id(host).clock.syncing == state.clock.syncing,
        state.init_rank(host, curr_time, device, rank, nranks, id).clock.syncing
            == state.clock.syncing,
        state.split(host, curr_time, rank, id, color, key).clock.syncing == state.clock.syncing,
{
    if state.comms.init.contains_key(id) {
        let group = state.comms.init[id].with_rank(rank, InitMember { host, device });
        lemma_init_forward(state.clock, group.members(nranks), curr_time);
    }
    if state.comms.split.contains_key(id) && state.comms.groups.contains_key(id) {
        let hosts = state.comms.groups[id];
        let info = SplitInfo { host, device: device_of(hosts, host.host@, 0), color, key };
        let members = state.comms.split[id].with_rank(rank, info).members();
        let begin = CommState {
            comms: CommsView { split: state.comms.split.remove(id), ..state.comms },
            clock: no_color_replies(state.clock, members),
        };
        lemma_no_color_forward(state.clock, members);
        lemma_groups_forward(begin, members, colors(members), curr_time);
    }
}

} // verus!
