//! Collective operations: the ranks of a communicator that meet in one.

use crate::cuda_call::{CudaCall, CudaStream, HostId, NcclComm, NcclDatatype, NcclReduceOp};
use crate::event_queue::{point, Action, EventId, Flow, OpView};
use crate::nccl_id::NcclId;
use crate::simulator::ranks::{ascending, ascending_with, ranks_below, RankSet};
use crate::simulator::streams::{
    lemma_event_clear, CoreView, StreamCore, StreamKey, StreamName,
};
use crate::simulator::trace::{MatchEvent, MatchView};
use crate::sort::views;
use crate::table::{MapKey, Table};
use std::collections::HashSet;
use vstd::prelude::*;

verus! {

/// A collective operation with what all its ranks have to agree on.
#[derive(Clone, Copy, Debug, PartialEq, Eq, Structural)]
pub enum NcclCollectiveSignature {
    Bcast { count: usize, dtype: NcclDatatype, root: i32 },
    AllReduce { count: usize, dtype: NcclDatatype, op: NcclReduceOp },
    AllGather { count: usize, dtype: NcclDatatype },
    ReduceScatter { count: usize, dtype: NcclDatatype, op: NcclReduceOp },
}

/// The kinds of collective operations.
#[derive(Clone, Copy, Debug, PartialEq, Eq, Structural)]
pub enum CollectiveKind {
    Bcast,
    AllReduce,
    AllGather,
    ReduceScatter,
}

impl NcclCollectiveSignature {
    /// The kind of the operation.
    pub open spec fn kind_of(self) -> CollectiveKind {
        match self {
            NcclCollectiveSignature::Bcast { .. } => CollectiveKind::Bcast,
            NcclCollectiveSignature::AllReduce { .. } => CollectiveKind::AllReduce,
            NcclCollectiveSignature::AllGather { .. } => CollectiveKind::AllGather,
            NcclCollectiveSignature::ReduceScatter { .. } => CollectiveKind::ReduceScatter,
        }
    }

    /// The kind of the operation.
    pub fn kind(self) -> (k: CollectiveKind)
        ensures
            k == self.kind_of(),
    {
        match self {
            NcclCollectiveSignature::Bcast { .. } => CollectiveKind::Bcast,
            NcclCollectiveSignature::AllReduce { .. } => CollectiveKind::AllReduce,
            NcclCollectiveSignature::AllGather { .. } => CollectiveKind::AllGather,
            NcclCollectiveSignature::ReduceScatter { .. } => CollectiveKind::ReduceScatter,
        }
    }

    /// The call by which a rank takes part.
    pub open spec fn call_of(self, comm: NcclComm, stream: CudaStream) -> CudaCall {
        match self {
            NcclCollectiveSignature::Bcast { count, dtype, root } => CudaCall::NcclBcast {
                count,
                dtype,
                root,
                comm,
                stream,
            },
            NcclCollectiveSignature::AllReduce { count, dtype, op } => CudaCall::NcclAllReduce {
                count,
                dtype,
                op,
                comm,
                stream,
            },
            NcclCollectiveSignature::AllGather { count, dtype } => CudaCall::NcclAllGather {
                count,
                dtype,
                comm,
                stream,
            },
            NcclCollectiveSignature::ReduceScatter { count, dtype, op } => {
                CudaCall::NcclReduceScatter { count, dtype, op, comm, stream }
            },
        }
    }

    /// The call by which a rank takes part.
    pub fn call(self, comm: NcclComm, stream: CudaStream) -> (c: CudaCall)
        ensures
            c == self.call_of(comm, stream),
    {
        match self {
            NcclCollectiveSignature::Bcast { count, dtype, root } => CudaCall::NcclBcast {
                count,
                dtype,
                root,
                comm,
                stream,
            },
            NcclCollectiveSignature::AllReduce { count, dtype, op } => CudaCall::NcclAllReduce {
                count,
                dtype,
                op,
                comm,
                stream,
            },
            NcclCollectiveSignature::AllGather { count, dtype } => CudaCall::NcclAllGather {
                count,
                dtype,
                comm,
                stream,
            },
            NcclCollectiveSignature::ReduceScatter { count, dtype, op } => {
                CudaCall::NcclReduceScatter { count, dtype, op, comm, stream }
            },
        }
    }
}

/// Whether a rank can join a collective that waits: it is the same operation, and
/// the rank has not joined it yet.
pub fn can_join_collective_waiting(
    waiting_signature: NcclCollectiveSignature,
    joined_ranks: &HashSet<i32>,
    rank: i32,
    signature: NcclCollectiveSignature,
) -> (b: bool)
    ensures
        b == (waiting_signature == signature && !joined_ranks@.contains(rank)),
{
    broadcast use vstd::std_specs::hash::group_hash_axioms;

    waiting_signature == signature && !joined_ranks.contains(&rank)
}

/// A collective that waits for ranks.
pub struct CCWaiting {
    sequence: u64,
    signature: NcclCollectiveSignature,
    trace: Vec<Flow>,
    comm_start_meta: EventId,
    comm_end_meta: EventId,
    comm_barrier: EventId,
    joined_ranks: HashSet<i32>,
    waiting_for: RankSet,
}

/// What a [`CCWaiting`] stands for.
#[verifier::ext_equal]
pub struct WaitingView {
    /// Its number among the collectives of its communicator.
    pub sequence: u64,
    pub signature: NcclCollectiveSignature,
    /// The transfers it consists of.
    pub trace: Seq<Flow>,
    /// Comes after the streams of all ranks have reached the collective.
    pub start: EventId,
    /// Comes after all transfers.
    pub end: EventId,
    /// Holds the streams back until all ranks have joined.
    pub barrier: EventId,
    pub joined: Set<i32>,
    pub waiting_for: Set<i32>,
}

impl View for CCWaiting {
    type V = WaitingView;

    closed spec fn view(&self) -> WaitingView {
        WaitingView {
            sequence: self.sequence,
            signature: self.signature,
            trace: self.trace@,
            start: self.comm_start_meta,
            end: self.comm_end_meta,
            barrier: self.comm_barrier,
            joined: self.joined_ranks@,
            waiting_for: self.waiting_for@,
        }
    }
}

impl WaitingView {
    /// Whether a rank can join.
    pub open spec fn joinable(self, rank: i32, signature: NcclCollectiveSignature) -> bool {
        self.signature == signature && !self.joined.contains(rank)
    }

    /// With one more rank.
    pub open spec fn with_rank(self, rank: i32) -> WaitingView {
        WaitingView {
            joined: self.joined.insert(rank),
            waiting_for: self.waiting_for.remove(rank),
            ..self
        }
    }

    /// Whether each rank of a communicator of a given size has either joined or
    /// is waited for.
    pub open spec fn covers(self, nranks: i32) -> bool {
        &&& self.waiting_for.subset_of(ranks_below(nranks))
        &&& self.waiting_for.disjoint(self.joined)
        &&& ranks_below(nranks).subset_of(self.waiting_for.union(self.joined))
    }
}

/// The collectives of one kind on one communicator that wait, oldest first.
pub struct WaitingQueue {
    waitings: Vec<CCWaiting>,
}

impl View for WaitingQueue {
    type V = Seq<WaitingView>;

    closed spec fn view(&self) -> Seq<WaitingView> {
        self.waitings@.map_values(|w: CCWaiting| w@)
    }
}

/// The first collective from `i` on that a rank can join.
pub open spec fn first_joinable(
    queue: Seq<WaitingView>,
    rank: i32,
    signature: NcclCollectiveSignature,
    i: int,
) -> Option<int>
    decreases queue.len() - i,
{
    if i < 0 || i >= queue.len() {
        None
    } else if queue[i].joinable(rank, signature) {
        Some(i)
    } else {
        first_joinable(queue, rank, signature, i + 1)
    }
}

impl WaitingQueue {
    fn new() -> (q: Self)
        ensures
            q@ == Seq::<WaitingView>::empty(),
    {
        let q = WaitingQueue { waitings: Vec::new() };
        assert(q@ =~= Seq::<WaitingView>::empty());
        q
    }

    fn len(&self) -> (n: usize)
        ensures
            n == self@.len(),
    {
        self.waitings.len()
    }

    fn find(&self, rank: i32, signature: NcclCollectiveSignature) -> (r: Option<usize>)
        ensures
            match r {
                Some(i) => i < self@.len() && first_joinable(self@, rank, signature, 0) == Some(
                    i as int,
                ) && self@[i as int].joinable(rank, signature),
                None => first_joinable(self@, rank, signature, 0) is None,
            },
    {
        let mut i: usize = 0;
        while i < self.waitings.len()
            invariant
                i <= self.waitings@.len(),
                first_joinable(self@, rank, signature, 0) == first_joinable(
                    self@,
                    rank,
                    signature,
                    i as int,
                ),
            decreases self.waitings@.len() - i,
        {
            let w = &self.waitings[i];
            assert(self@[i as int] == w@);
            if can_join_collective_waiting(w.signature, &w.joined_ranks, rank, signature) {
                return Some(i);
            }
            i += 1;
        }
        None
    }

    fn push_back(&mut self, w: CCWaiting)
        ensures
            final(self)@ == old(self)@.push(w@),
    {
        let ghost before = self@;
        self.waitings.push(w);
        assert(self@ =~= before.push(w@));
    }

    fn remove(&mut self, i: usize) -> (w: CCWaiting)
        requires
            i < old(self)@.len(),
        ensures
            w@ == old(self)@[i as int],
            final(self)@ == old(self)@.remove(i as int),
    {
        let ghost before = self@;
        let w = self.waitings.remove(i);
        assert(self@ =~= before.remove(i as int));
        w
    }

    fn insert(&mut self, i: usize, w: CCWaiting)
        requires
            i <= old(self)@.len(),
        ensures
            final(self)@ == old(self)@.insert(i as int, w@),
    {
        let ghost before = self@;
        self.waitings.insert(i, w);
        assert(self@ =~= before.insert(i as int, w@));
    }
}

/// A kind of collective on a communicator.
#[derive(Clone, Copy, Debug, PartialEq, Eq)]
pub struct CollectiveKey {
    pub kind: CollectiveKind,
    pub comm: NcclId,
}

/// What a [`CollectiveKey`] stands for.
pub type CollectiveName = (CollectiveKind, Seq<u8>);

impl View for CollectiveKey {
    type V = CollectiveName;

    open spec fn view(&self) -> CollectiveName {
        (self.kind, self.comm@)
    }
}

impl MapKey for CollectiveKey {
    fn same_key(&self, other: &Self) -> (b: bool) {
        self.kind == other.kind && self.comm.same_key(&other.comm)
    }
}

/// Keeps the collectives that wait for ranks.
pub struct Collectives {
    waiting: Table<CollectiveKey, WaitingQueue>,
    next_sequence: Table<NcclId, u64>,
}

/// What a [`Collectives`] stands for.
#[verifier::ext_equal]
pub struct CollectivesView {
    /// The collectives that wait, oldest first.
    pub waiting: Map<CollectiveName, Seq<WaitingView>>,
    /// The number of collectives that each communicator has begun.
    pub begun: Map<Seq<u8>, u64>,
}

impl View for Collectives {
    type V = CollectivesView;

    closed spec fn view(&self) -> CollectivesView {
        CollectivesView { waiting: self.waiting@, begun: self.next_sequence@ }
    }
}

impl CollectivesView {
    /// The collectives of one kind that wait on a communicator.
    pub open spec fn queue(self, name: CollectiveName) -> Seq<WaitingView> {
        if self.waiting.contains_key(name) {
            self.waiting[name]
        } else {
            seq![]
        }
    }

    /// The number of the next collective of a communicator.
    pub open spec fn sequence(self, comm: Seq<u8>) -> u64 {
        if self.begun.contains_key(comm) {
            self.begun[comm]
        } else {
            0
        }
    }
}

/// With the transfers of a collective, which start together.
pub open spec fn flows_added(
    core: CoreView,
    start: EventId,
    trace: Seq<Flow>,
    call: CudaCall,
    time: i64,
) -> CoreView
    decreases trace.len(),
{
    if trace.len() == 0 {
        core
    } else {
        flows_added(core, start, trace.drop_last(), call, time).op(
            OpView::Add {
                depends_on: seq![Some(start)],
                action: Some(Action::Communication(trace.last(), call)),
                time,
            },
        )
    }
}

/// The names of the next `n` events.
pub open spec fn next_events(core: CoreView, n: nat) -> Seq<EventId> {
    Seq::new(n, |i: int| (core.queue.len() + i) as EventId)
}

/// With an event that waits for some more events.
pub open spec fn deps_added(core: CoreView, event: EventId, on: Seq<EventId>) -> CoreView
    decreases on.len(),
{
    if on.len() == 0 {
        core
    } else {
        deps_added(core, event, on.drop_last()).op(
            OpView::AddDependency { event, on: Some(on.last()) },
        )
    }
}

/// After a collective was joined by its last rank: its transfers run between its
/// start and its end, and the streams are held back no longer.
pub open spec fn completed(core: CoreView, w: WaitingView, call: CudaCall, time: i64) -> CoreView {
    deps_added(
        flows_added(core, w.start, w.trace, call, time),
        w.end,
        next_events(core, w.trace.len()),
    ).op(OpView::RemoveNoneDependency { event: w.barrier })
}

/// A rank that takes part in a collective.
pub struct Participant {
    pub host: HostId,
    pub stream: CudaStream,
    pub comm: NcclComm,
    pub curr_time: i64,
    pub signature: NcclCollectiveSignature,
}

impl Participant {
    /// The stream on which it takes part.
    pub open spec fn name(self) -> StreamName {
        (self.host@, self.stream)
    }

    /// Where the collective waits.
    pub open spec fn key(self) -> CollectiveName {
        (self.signature.kind_of(), self.comm.id@)
    }
}

impl CollectivesView {
    /// What happens when a rank takes part in a collective of a communicator of a given
    /// size.
    pub open spec fn match_events(self, p: Participant, nranks: i32) -> Seq<MatchView> {
        let queue = self.queue(p.key());
        let rank = p.comm.rank;
        let arrive = MatchView::Arrive { queue_len: queue.len() as usize };
        match first_joinable(queue, rank, p.signature, 0) {
            None => seq![
                arrive,
                MatchView::NewWaiting {
                    sequence: self.sequence(p.comm.id@),
                    waiting_for: ascending(ranks_below(nranks).remove(rank)),
                },
            ],
            Some(i) => {
                let before = queue[i];
                let after = before.with_rank(rank);
                let join = MatchView::Join {
                    sequence: before.sequence,
                    waiting_index: i as usize,
                    waiting_for_before: ascending(before.waiting_for),
                    waiting_for_after: ascending(after.waiting_for),
                    joined_ranks: ascending(after.joined),
                };
                if after.waiting_for =~= Set::empty() {
                    seq![
                        arrive,
                        join,
                        MatchView::Complete {
                            sequence: before.sequence,
                            joined_ranks: ascending(after.joined),
                        },
                    ]
                } else {
                    seq![arrive, join]
                }
            },
        }
    }
}

/// The streams and the collectives that wait.
#[verifier::ext_equal]
pub struct CollectiveState {
    pub core: CoreView,
    pub collectives: CollectivesView,
}

impl CollectiveState {
    /// After a rank began a collective of a communicator of a given size.
    pub open spec fn begin(
        self,
        p: Participant,
        nranks: i32,
        trace: Seq<Flow>,
    ) -> CollectiveState {
        let t = p.curr_time;
        let barrier = self.core.next();
        let held = self.core.op(point(seq![None], t));
        let stream_start = held.event_id(p.name());
        let reached = held.event(p.name(), seq![Some(barrier)], None, t);
        let start = reached.next();
        let started = reached.op(point(seq![Some(stream_start)], t));
        let end = started.next();
        let ended = started.op(point(seq![Some(start)], t));
        let sequence = self.collectives.sequence(p.comm.id@);
        CollectiveState {
            core: ended.event(p.name(), seq![Some(end)], None, t),
            collectives: CollectivesView {
                waiting: self.collectives.waiting.insert(
                    p.key(),
                    self.collectives.queue(p.key()).push(
                        WaitingView {
                            sequence,
                            signature: p.signature,
                            trace,
                            start,
                            end,
                            barrier,
                            joined: set![p.comm.rank],
                            waiting_for: ranks_below(nranks).remove(p.comm.rank),
                        },
                    ),
                ),
                begun: self.collectives.begun.insert(p.comm.id@, (sequence + 1) as u64),
            },
        }
    }

    /// After a rank joined the collective at `i`.
    pub open spec fn join(self, p: Participant, i: int) -> CollectiveState {
        let t = p.curr_time;
        let queue = self.collectives.queue(p.key());
        let w = queue[i].with_rank(p.comm.rank);
        let stream_start = self.core.event_id(p.name());
        let reached = self.core.event(p.name(), seq![Some(w.barrier)], None, t);
        let tied = reached.op(OpView::AddDependency { event: w.start, on: Some(stream_start) });
        let ended = tied.event(p.name(), seq![Some(w.end)], None, t);
        let complete = w.waiting_for =~= Set::empty();
        CollectiveState {
            core: if complete {
                completed(ended, w, p.signature.call_of(p.comm, p.stream), t)
            } else {
                ended
            },
            collectives: CollectivesView {
                waiting: self.collectives.waiting.insert(
                    p.key(),
                    if complete {
                        queue.remove(i)
                    } else {
                        queue.update(i, w)
                    },
                ),
                ..self.collectives
            },
        }
    }

    /// After a rank took part in a collective: it joins the oldest collective that
    /// it can join, or begins one.
    pub open spec fn take_part(
        self,
        p: Participant,
        nranks: i32,
        trace: Seq<Flow>,
    ) -> CollectiveState {
        match first_joinable(self.collectives.queue(p.key()), p.comm.rank, p.signature, 0) {
            Some(i) => self.join(p, i),
            None => self.begin(p, nranks, trace),
        }
    }
}

/// Adds the transfers of a collective that all ranks have joined.
fn complete(core: &mut StreamCore, w: CCWaiting, p: &Participant)
    ensures
        final(core)@ == completed(
            old(core)@,
            w@,
            p.signature.call_of(p.comm, p.stream),
            p.curr_time,
        ),
{
    let ghost view = w@;
    let ghost call = p.signature.call_of(p.comm, p.stream);
    let ghost all = w.trace@;
    let ghost first = core@;
    let mut events: Vec<EventId> = Vec::new();
    for flow in it: w.trace
        invariant
            it.seq() == all,
            call == p.signature.call_of(p.comm, p.stream),
            view.start == w.comm_start_meta,
            core@ == flows_added(first, view.start, all.take(it.index()), call, p.curr_time),
            core@.queue.len() == first.queue.len() + it.index(),
            events@ == next_events(first, it.index() as nat),
    {
        let ghost n = it.index();
        let mut after: Vec<Option<EventId>> = Vec::new();
        after.push(Some(w.comm_start_meta));
        assert(after@ =~= seq![Some(view.start)]);
        let id = core.add_action(
            after,
            Action::Communication(flow, p.signature.call(p.comm, p.stream)),
            p.curr_time,
        );
        events.push(id);
        proof {
            assert(all.take(n + 1).drop_last() =~= all.take(n));
            assert(events@ =~= next_events(first, (n + 1) as nat));
        }
    }
    assert(all.take(all.len() as int) =~= all);
    let ghost flows = core@;
    let mut i: usize = 0;
    while i < events.len()
        invariant
            i <= events.len(),
            view.end == w.comm_end_meta,
            core@ == deps_added(flows, view.end, events@.take(i as int)),
        decreases events.len() - i,
    {
        core.add_dependency(w.comm_end_meta, events[i]);
        assert(events@.take(i + 1).drop_last() =~= events@.take(i as int));
        i += 1;
    }
    assert(events@.take(events@.len() as int) =~= events@);
    core.release(w.comm_barrier);
}

impl Collectives {
    /// No collective was begun.
    pub fn new() -> (c: Self)
        ensures
            c@ == (CollectivesView { waiting: Map::empty(), begun: Map::empty() }),
    {
        Collectives { waiting: Table::new(), next_sequence: Table::new() }
    }

    /// The number of the next collective of a communicator.
    pub fn sequence(&self, comm: &NcclId) -> (n: u64)
        ensures
            n == self@.sequence(comm@),
    {
        match self.next_sequence.get(comm) {
            Some(n) => *n,
            None => 0,
        }
    }

    /// What happens when a rank takes part in a collective of a communicator of a given
    /// size.
    pub fn match_events(&self, p: &Participant, nranks: i32) -> (r: Vec<MatchEvent>)
        ensures
            views(r@) == self@.match_events(*p, nranks),
    {
        let rank = p.comm.rank;
        let key = CollectiveKey { kind: p.signature.kind(), comm: NcclId(p.comm.id) };
        let mut r: Vec<MatchEvent> = Vec::new();
        if let Some(queue) = self.waiting.get(&key) {
            r.push(MatchEvent::Arrive { queue_len: queue.len() });
            if let Some(i) = queue.find(rank, p.signature) {
                let w = &queue.waitings[i];
                assert(queue@[i as int] == w@);
                let waiting_for_after = w.waiting_for.ascending_without(rank);
                let last = w.waiting_for.none_but(rank);
                r.push(
                    MatchEvent::Join {
                        sequence: w.sequence,
                        waiting_index: i,
                        waiting_for_before: w.waiting_for.ascending(),
                        waiting_for_after,
                        joined_ranks: ascending_with(&w.joined_ranks, rank),
                    },
                );
                if last {
                    r.push(
                        MatchEvent::Complete {
                            sequence: w.sequence,
                            joined_ranks: ascending_with(&w.joined_ranks, rank),
                        },
                    );
                }
                assert(views(r@) =~= self@.match_events(*p, nranks));
                return r;
            }
        } else {
            r.push(MatchEvent::Arrive { queue_len: 0 });
        }
        r.push(
            MatchEvent::NewWaiting {
                sequence: self.sequence(&key.comm),
                waiting_for: RankSet::others(nranks, rank).ascending(),
            },
        );
        assert(views(r@) =~= self@.match_events(*p, nranks));
        r
    }

    /// Begins a collective.
    fn new_cc_waiting(
        &mut self,
        core: &mut StreamCore,
        p: &Participant,
        nranks: i32,
        trace: Vec<Flow>,
    ) -> (w: CCWaiting)
        requires
            old(core)@.ready(p.name()),
            old(self)@.sequence(p.comm.id@) < u64::MAX,
        ensures
            (CollectiveState {
                core: final(core)@,
                collectives: CollectivesView {
                    waiting: old(self)@.waiting.insert(
                        p.key(),
                        old(self)@.queue(p.key()).push(w@),
                    ),
                    ..final(self)@
                },
            }) == (CollectiveState { core: old(core)@, collectives: old(self)@ }).begin(
                *p,
                nranks,
                trace@,
            ),
            final(self)@.waiting == old(self)@.waiting,
    {
        broadcast use vstd::std_specs::hash::group_hash_axioms;

        let nccl_id = NcclId(p.comm.id);
        let sequence = self.sequence(&nccl_id);
        self.next_sequence.insert(nccl_id, sequence + 1);
        let mut joined_ranks: HashSet<i32> = HashSet::new();
        joined_ranks.insert(p.comm.rank);
        assert(joined_ranks@ =~= set![p.comm.rank]);
        let waiting_for = RankSet::others(nranks, p.comm.rank);

        let key = StreamKey { host: p.host.clone(), stream: p.stream };
        let mut held: Vec<Option<EventId>> = Vec::new();
        held.push(None);
        assert(held@ =~= seq![None]);
        let comm_barrier = core.add_point(held, p.curr_time);
        let ghost held_core = core@;
        let mut after: Vec<Option<EventId>> = Vec::new();
        after.push(Some(comm_barrier));
        assert(after@ =~= seq![Some(comm_barrier)]);
        let stream_start = core.add_event(&key, after, None, p.curr_time);
        proof {
            lemma_event_clear(held_core, p.name(), seq![Some(comm_barrier)], None, p.curr_time);
        }
        let mut after: Vec<Option<EventId>> = Vec::new();
        after.push(Some(stream_start));
        assert(after@ =~= seq![Some(stream_start)]);
        let comm_start_meta = core.add_point(after, p.curr_time);
        let mut after: Vec<Option<EventId>> = Vec::new();
        after.push(Some(comm_start_meta));
        assert(after@ =~= seq![Some(comm_start_meta)]);
        let comm_end_meta = core.add_point(after, p.curr_time);
        let mut after: Vec<Option<EventId>> = Vec::new();
        after.push(Some(comm_end_meta));
        assert(after@ =~= seq![Some(comm_end_meta)]);
        core.add_event(&key, after, None, p.curr_time);
        CCWaiting {
            sequence,
            signature: p.signature,
            trace,
            comm_start_meta,
            comm_end_meta,
            comm_barrier,
            joined_ranks,
            waiting_for,
        }
    }

    /// Lets a rank take part in a collective of a communicator of a given size.
    pub fn nccl_call(
        &mut self,
        core: &mut StreamCore,
        p: &Participant,
        nranks: i32,
        trace: Vec<Flow>,
    )
        requires
            old(core)@.ready(p.name()),
            old(self)@.sequence(p.comm.id@) < u64::MAX,
        ensures
            (CollectiveState { core: final(core)@, collectives: final(self)@ }) == (
            CollectiveState { core: old(core)@, collectives: old(self)@ }).take_part(
                *p,
                nranks,
                trace@,
            ),
    {
        broadcast use vstd::std_specs::hash::group_hash_axioms;

        let key = CollectiveKey { kind: p.signature.kind(), comm: NcclId(p.comm.id) };
        let found = match self.waiting.get(&key) {
            Some(queue) => queue.find(p.comm.rank, p.signature),
            None => None,
        };
        match found {
            None => {
                let w = self.new_cc_waiting(core, p, nranks, trace);
                if !self.waiting.contains_key(&key) {
                    self.waiting.insert(key, WaitingQueue::new());
                }
                if let Some(queue) = self.waiting.get_mut(&key) {
                    queue.push_back(w);
                }
                assert(self@.waiting =~= old(self)@.waiting.insert(
                    p.key(),
                    old(self)@.queue(p.key()).push(w@),
                ));
            },
            Some(i) => {
                let ghost before = self@.queue(p.key());
                let ghost first = core@;
                if let Some(queue) = self.waiting.get_mut(&key) {
                    let mut w = queue.remove(i);
                    w.waiting_for.remove(p.comm.rank);
                    w.joined_ranks.insert(p.comm.rank);
                    assert(w@ =~= before[i as int].with_rank(p.comm.rank));

                    let stream = StreamKey { host: p.host.clone(), stream: p.stream };
                    let mut after: Vec<Option<EventId>> = Vec::new();
                    after.push(Some(w.comm_barrier));
                    assert(after@ =~= seq![Some(w@.barrier)]);
                    let stream_start = core.add_event(&stream, after, None, p.curr_time);
                    proof {
                        lemma_event_clear(
                            first,
                            p.name(),
                            seq![Some(w@.barrier)],
                            None,
                            p.curr_time,
                        );
                    }
                    core.add_dependency(w.comm_start_meta, stream_start);
                    let mut after: Vec<Option<EventId>> = Vec::new();
                    after.push(Some(w.comm_end_meta));
                    assert(after@ =~= seq![Some(w@.end)]);
                    core.add_event(&stream, after, None, p.curr_time);

                    if w.waiting_for.is_empty() {
                        assert(w@.waiting_for =~= Set::empty());
                        complete(core, w, p);
                    } else {
                        assert(!(w@.waiting_for =~= Set::empty()));
                        let ghost at = w@;
                        queue.insert(i, w);
                        assert(queue@ =~= before.update(i as int, at));
                    }
                }
                assert(self@.waiting =~= (CollectiveState {
                    core: first,
                    collectives: old(self)@,
                }).join(*p, i as int).collectives.waiting);
            },
        }
    }
}

/// The collective that a rank joins is the oldest of those that it can join, and
/// it has not joined that one before.
pub proof fn law_oldest_joinable(
    queue: Seq<WaitingView>,
    rank: i32,
    signature: NcclCollectiveSignature,
    from: int,
)
    requires
        0 <= from <= queue.len(),
    ensures
        match first_joinable(queue, rank, signature, from) {
            Some(i) => from <= i < queue.len() && queue[i].signature == signature
                && !queue[i].joined.contains(rank) && forall|j: int|
                from <= j < i ==> !(#[trigger] queue[j]).joinable(rank, signature),
            None => forall|j: int|
                from <= j < queue.len() ==> !(#[trigger] queue[j]).joinable(rank, signature),
        },
    decreases queue.len() - from,
{
    if from < queue.len() {
        law_oldest_joinable(queue, rank, signature, from + 1);
    }
}

/// Whether each rank has either joined each of some collectives or is waited for.
pub open spec fn all_cover(queue: Seq<WaitingView>, nranks: i32) -> bool {
    forall|i: int| 0 <= i < queue.len() ==> (#[trigger] queue[i]).covers(nranks)
}

/// A collective waits for exactly the ranks that have not joined it. It leaves the
/// queue, and its transfers are added, when the last of them joins: then every
/// rank of the communicator has joined it, and otherwise some rank has not.
pub proof fn law_complete_when_all_joined(
    state: CollectiveState,
    p: Participant,
    nranks: i32,
    trace: Seq<Flow>,
)
    requires
        all_cover(state.collectives.queue(p.key()), nranks),
    ensures
        ({
            let queue = state.collectives.queue(p.key());
            let after = state.take_part(p, nranks, trace).collectives.queue(p.key());
            &&& all_cover(after, nranks)
            &&& match first_joinable(queue, p.comm.rank, p.signature, 0) {
                Some(i) => {
                    let joined = queue[i].joined.insert(p.comm.rank);
                    if ranks_below(nranks).subset_of(joined) {
                        after == queue.remove(i)
                    } else {
                        after == queue.update(i, queue[i].with_rank(p.comm.rank))
                    }
                },
                None => after.len() == queue.len() + 1,
            }
        }),
{
    let queue = state.collectives.queue(p.key());
    law_oldest_joinable(queue, p.comm.rank, p.signature, 0);
    let after = state.take_part(p, nranks, trace).collectives.queue(p.key());
    match first_joinable(queue, p.comm.rank, p.signature, 0) {
        Some(i) => {
            let w = queue[i].with_rank(p.comm.rank);
            assert(queue[i].covers(nranks));
            assert(w.covers(nranks)) by {
                assert forall|r: i32| ranks_below(nranks).contains(r) implies w.waiting_for.union(
                    w.joined,
                ).contains(r) by {
                    assert(queue[i].waiting_for.union(queue[i].joined).contains(r));
                }
            }
            if w.waiting_for =~= Set::empty() {
                assert forall|r: i32| ranks_below(nranks).contains(r) implies w.joined.contains(
                    r,
                ) by {
                    assert(w.waiting_for.union(w.joined).contains(r));
                }
                assert(after =~= queue.remove(i));
                assert forall|j: int| 0 <= j < after.len() implies (#[trigger] after[j]).covers(
                    nranks,
                ) by {
                    if j < i {
                        assert(after[j] == queue[j]);
                    } else {
                        assert(after[j] == queue[j + 1]);
                    }
                }
            } else {
                assert(exists|r: i32| #[trigger] w.waiting_for.contains(r)) by {
                    if forall|r: i32| !#[trigger] w.waiting_for.contains(r) {
                        assert(w.waiting_for =~= Set::empty());
                    }
                }
                let r = choose|r: i32| #[trigger] w.waiting_for.contains(r);
                assert(ranks_below(nranks).contains(r));
                assert(!w.joined.contains(r));
                assert(after =~= queue.update(i, w));
                assert forall|j: int| 0 <= j < after.len() implies (#[trigger] after[j]).covers(
                    nranks,
                ) by {
                    assert(queue[j].covers(nranks));
                }
            }
        },
        None => {
            assert(after.drop_last() =~= queue);
            assert forall|j: int| 0 <= j < after.len() implies (#[trigger] after[j]).covers(
                nranks,
            ) by {
                if j < queue.len() {
                    assert(after[j] == queue[j]);
                }
            }
        },
    }
}

/// Collectives of one kind or communicator leave all others as they are.
pub proof fn law_collectives_apart(
    state: CollectiveState,
    p: Participant,
    nranks: i32,
    trace: Seq<Flow>,
    other: CollectiveName,
)
    requires
        other != p.key(),
    ensures
        state.take_part(p, nranks, trace).collectives.queue(other) == state.collectives.queue(
            other,
        ),
{
}

/// What is told of a rank that takes part in a collective is what becomes of it: one
/// collective more waits where it began one, and the one that it joined waits no longer
/// where it was the last.
pub proof fn law_trace_tells_matching(
    state: CollectiveState,
    p: Participant,
    nranks: i32,
    trace: Seq<Flow>,
)
    ensures
        ({
            let queue = state.collectives.queue(p.key());
            let after = state.take_part(p, nranks, trace).collectives.queue(p.key());
            let told = state.collectives.match_events(p, nranks);
            &&& told.len() >= 2
            &&& told[0] == (MatchView::Arrive { queue_len: queue.len() as usize })
            &&& match told[1] {
                MatchView::NewWaiting { sequence, waiting_for } => {
                    &&& told.len() == 2
                    &&& after.len() == queue.len() + 1
                    &&& after.last().sequence == sequence
                    &&& waiting_for == ascending(after.last().waiting_for)
                },
                MatchView::Join { sequence, joined_ranks, .. } => {
                    let i = first_joinable(queue, p.comm.rank, p.signature, 0)->0;
                    &&& 0 <= i < queue.len()
                    &&& sequence == queue[i].sequence
                    &&& if told.len() == 3 {
                        &&& told[2] == (MatchView::Complete { sequence, joined_ranks })
                        &&& after == queue.remove(i)
                    } else {
                        &&& told.len() == 2
                        &&& after == queue.update(i, queue[i].with_rank(p.comm.rank))
                        &&& joined_ranks == ascending(after[i].joined)
                    }
                },
                _ => false,
            }
        }),
{
    let queue = state.collectives.queue(p.key());
    law_oldest_joinable(queue, p.comm.rank, p.signature, 0);
}

} // verus!
