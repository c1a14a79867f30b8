//! Point-to-point transfers: sends and receives that find each other.

use crate::cuda_call::{CudaCall, CudaStream, HostId, NcclComm, NcclDatatype};
use crate::event_queue::{point, Action, EventId, Flow, OpView};
use crate::nccl_id::NcclId;
use crate::simulator::hosts::later;
use crate::simulator::streams::{
    lemma_event_clear, lemma_event_ready, CoreView, StreamCore, StreamKey, StreamName,
};
use crate::table::{MapKey, Table};
use std::collections::VecDeque;
use vstd::prelude::*;

verus! {

/// The side of a transfer.
#[derive(Clone, Copy, Debug, PartialEq, Eq, Structural)]
pub enum P2PCallKind {
    Send,
    Recv,
}

/// A communicator with the rank that sends and the rank that receives.
#[derive(Clone, Copy, Debug, PartialEq, Eq, Hash)]
pub struct P2PKey {
    pub comm: NcclId,
    pub sender: i32,
    pub receiver: i32,
}

/// What a [`P2PKey`] stands for.
pub type P2PName = (Seq<u8>, i32, i32);

impl View for P2PKey {
    type V = P2PName;

    open spec fn view(&self) -> P2PName {
        (self.comm@, self.sender, self.receiver)
    }
}

impl MapKey for P2PKey {
    fn same_key(&self, other: &Self) -> (b: bool) {
        self.sender == other.sender && self.receiver == other.receiver && self.comm.same_key(
            &other.comm,
        )
    }
}

/// One send or receive.
#[derive(Clone, Copy, Debug, PartialEq, Eq)]
pub struct P2PCallInfo {
    pub kind: P2PCallKind,
    pub key: P2PKey,
    pub stream: CudaStream,
    pub count: usize,
    pub dtype: NcclDatatype,
}

/// One side of a transfer, with the events that gate it.
#[derive(Debug, PartialEq, Eq)]
pub struct P2PFlowEndpoint {
    pub host: HostId,
    pub stream: CudaStream,
    pub curr_time: i64,
    pub count: usize,
    pub dtype: NcclDatatype,
    /// The transfer starts after this event of either side.
    pub flow_start: EventId,
    /// This event of either side comes after the transfer.
    pub flow_end: EventId,
    /// Holds the start back until the other side is there.
    pub unmatched_barrier: EventId,
}

/// Whether the size of a buffer in bytes is a machine number.
pub open spec fn bytes_fit(count: usize, dtype: NcclDatatype) -> bool {
    count * dtype.bytes() <= usize::MAX
}

/// The key of a send or receive of a rank with its peer.
pub open spec fn key_of(kind: P2PCallKind, comm: NcclComm, peer: i32) -> P2PKey {
    match kind {
        P2PCallKind::Send => P2PKey { comm: NcclId(comm.id), sender: comm.rank, receiver: peer },
        P2PCallKind::Recv => P2PKey { comm: NcclId(comm.id), sender: peer, receiver: comm.rank },
    }
}

/// The key of a send or receive of a rank with its peer.
pub fn p2p_key(kind: P2PCallKind, comm: NcclComm, peer: i32) -> (key: P2PKey)
    ensures
        key == key_of(kind, comm, peer),
{
    match kind {
        P2PCallKind::Send => P2PKey { comm: NcclId(comm.id), sender: comm.rank, receiver: peer },
        P2PCallKind::Recv => P2PKey { comm: NcclId(comm.id), sender: peer, receiver: comm.rank },
    }
}

/// The sides that wait for their peers, oldest first.
pub type Waiting = Map<P2PName, Seq<P2PFlowEndpoint>>;

/// With the oldest side of a key taken out.
pub open spec fn popped(waiting: Waiting, key: P2PName) -> Waiting {
    if !waiting.contains_key(key) {
        waiting
    } else if waiting[key].len() <= 1 {
        waiting.remove(key)
    } else {
        waiting.insert(key, waiting[key].skip(1))
    }
}

/// Whether a side waits for a key.
pub open spec fn has_waiting(waiting: Waiting, key: P2PName) -> bool {
    waiting.contains_key(key) && waiting[key].len() > 0
}

/// With one more side behind those of a key.
pub open spec fn enqueued(waiting: Waiting, key: P2PName, endpoint: P2PFlowEndpoint) -> Waiting {
    waiting.insert(
        key,
        if waiting.contains_key(key) {
            waiting[key].push(endpoint)
        } else {
            seq![endpoint]
        },
    )
}

/// What a [`P2PMatcher`] stands for.
#[verifier::ext_equal]
pub struct P2PView {
    pub send: Waiting,
    pub recv: Waiting,
}

impl P2PView {
    /// The sides of one kind that wait.
    pub open spec fn side(self, kind: P2PCallKind) -> Waiting {
        match kind {
            P2PCallKind::Send => self.send,
            P2PCallKind::Recv => self.recv,
        }
    }

    /// The sides of the other kind that wait.
    pub open spec fn other(self, kind: P2PCallKind) -> Waiting {
        match kind {
            P2PCallKind::Send => self.recv,
            P2PCallKind::Recv => self.send,
        }
    }

    /// With the sides of the other kind as given.
    pub open spec fn with_other(self, kind: P2PCallKind, waiting: Waiting) -> P2PView {
        match kind {
            P2PCallKind::Send => P2PView { recv: waiting, ..self },
            P2PCallKind::Recv => P2PView { send: waiting, ..self },
        }
    }

    /// With the sides of one kind as given.
    pub open spec fn with_side(self, kind: P2PCallKind, waiting: Waiting) -> P2PView {
        match kind {
            P2PCallKind::Send => P2PView { send: waiting, ..self },
            P2PCallKind::Recv => P2PView { recv: waiting, ..self },
        }
    }

    /// Whether the byte sizes of all waiting buffers are machine numbers.
    pub open spec fn sizes_fit(self) -> bool {
        &&& forall|k: P2PName, i: int|
            self.send.contains_key(k) && 0 <= i < self.send[k].len() ==> bytes_fit(
                (#[trigger] self.send[k][i]).count,
                self.send[k][i].dtype,
            )
        &&& forall|k: P2PName, i: int|
            self.recv.contains_key(k) && 0 <= i < self.recv[k].len() ==> bytes_fit(
                (#[trigger] self.recv[k][i]).count,
                self.recv[k][i].dtype,
            )
    }

    /// Whether no key has both a send and a receive that wait, and no key is kept
    /// without one.
    pub open spec fn settled(self) -> bool {
        &&& forall|k: P2PName| #[trigger] self.send.contains_key(k) ==> self.send[k].len() > 0
        &&& forall|k: P2PName| #[trigger] self.recv.contains_key(k) ==> self.recv[k].len() > 0
        &&& forall|k: P2PName|
            !(#[trigger] self.send.contains_key(k) && #[trigger] self.recv.contains_key(k))
    }
}

/// The transfer of a matched pair.
pub open spec fn flow_action(
    send: P2PFlowEndpoint,
    recv: P2PFlowEndpoint,
    key: P2PKey,
) -> Action {
    let bytes = (send.count * send.dtype.bytes()) as usize;
    Action::Communication(
        Flow { bytes, src: send.host.hostname, dst: recv.host.hostname },
        CudaCall::NcclSend {
            count: bytes,
            dtype: NcclDatatype::U8,
            peer: key.receiver,
            comm: NcclComm { rank: key.sender, id: key.comm.0 },
            stream: send.stream,
        },
    )
}

/// After a pair was matched: the transfer runs between the starts and the ends of
/// both sides, and neither start is held back any longer.
pub open spec fn scheduled(
    core: CoreView,
    send: P2PFlowEndpoint,
    recv: P2PFlowEndpoint,
    key: P2PKey,
) -> CoreView {
    let flow = core.next();
    core.op(
        OpView::Add {
            depends_on: seq![Some(send.flow_start), Some(recv.flow_start)],
            action: Some(flow_action(send, recv, key)),
            time: later(send.curr_time, recv.curr_time),
        },
    ).op(OpView::AddDependency { event: send.flow_end, on: Some(flow) }).op(
        OpView::AddDependency { event: recv.flow_end, on: Some(flow) },
    ).op(OpView::RemoveNoneDependency { event: send.unmatched_barrier }).op(
        OpView::RemoveNoneDependency { event: recv.unmatched_barrier },
    )
}

/// The streams and the sides that wait.
#[verifier::ext_equal]
pub struct P2PState {
    pub core: CoreView,
    pub p2p: P2PView,
}

impl P2PState {
    /// After one side arrived: it is matched with the side of the other kind that
    /// has waited longest, or waits itself.
    pub open spec fn arrive(
        self,
        kind: P2PCallKind,
        key: P2PKey,
        endpoint: P2PFlowEndpoint,
    ) -> P2PState {
        let others = self.p2p.other(kind);
        if has_waiting(others, key@) {
            let peer = others[key@][0];
            P2PState {
                core: match kind {
                    P2PCallKind::Send => scheduled(self.core, endpoint, peer, key),
                    P2PCallKind::Recv => scheduled(self.core, peer, endpoint, key),
                },
                p2p: self.p2p.with_other(kind, popped(others, key@)),
            }
        } else {
            let cleared = self.p2p.with_other(kind, popped(others, key@));
            P2PState {
                core: self.core,
                p2p: cleared.with_side(kind, enqueued(cleared.side(kind), key@, endpoint)),
            }
        }
    }

    /// After a send or receive outside any group: its stream is occupied from its
    /// start to its end.
    pub open spec fn ungrouped(
        self,
        host: HostId,
        curr_time: i64,
        call: P2PCallInfo,
    ) -> P2PState {
        let name = (host@, call.stream);
        let barrier = self.core.next();
        let held = self.core.op(point(seq![None], curr_time));
        let flow_start = held.event_id(name);
        let started = held.event(name, seq![Some(barrier)], None, curr_time);
        let flow_end = started.event_id(name);
        let ended = started.event(name, seq![Some(flow_start)], None, curr_time);
        (P2PState { core: ended, ..self }).arrive(
            call.kind,
            call.key,
            P2PFlowEndpoint {
                host,
                stream: call.stream,
                curr_time,
                count: call.count,
                dtype: call.dtype,
                flow_start,
                flow_end,
                unmatched_barrier: barrier,
            },
        )
    }
}

/// A send or receive that a call asks for, if it does.
pub open spec fn p2p_call(call: CudaCall) -> Option<P2PCallInfo> {
    match call {
        CudaCall::NcclSend { count, dtype, peer, comm, stream } => Some(
            P2PCallInfo {
                kind: P2PCallKind::Send,
                key: key_of(P2PCallKind::Send, comm, peer),
                stream,
                count,
                dtype,
            },
        ),
        CudaCall::NcclRecv { count, dtype, peer, comm, stream } => Some(
            P2PCallInfo {
                kind: P2PCallKind::Recv,
                key: key_of(P2PCallKind::Recv, comm, peer),
                stream,
                count,
                dtype,
            },
        ),
        _ => None,
    }
}

/// The sends and receives among some calls. Other calls are left out.
pub open spec fn p2p_calls(calls: Seq<CudaCall>) -> Seq<P2PCallInfo>
    decreases calls.len(),
{
    if calls.len() == 0 {
        seq![]
    } else {
        match p2p_call(calls.last()) {
            Some(info) => p2p_calls(calls.drop_last()).push(info),
            None => p2p_calls(calls.drop_last()),
        }
    }
}

/// The streams of some sends and receives, in the order in which they come up.
pub open spec fn streams_of(calls: Seq<P2PCallInfo>) -> Seq<CudaStream>
    decreases calls.len(),
{
    if calls.len() == 0 {
        seq![]
    } else {
        let before = streams_of(calls.drop_last());
        if before.contains(calls.last().stream) {
            before
        } else {
            before.push(calls.last().stream)
        }
    }
}

/// The sends and receives on one stream.
pub open spec fn on_stream(calls: Seq<P2PCallInfo>, stream: CudaStream) -> Seq<P2PCallInfo> {
    calls.filter(|c: P2PCallInfo| c.stream == stream)
}

/// The sides of a group on one stream, with the events that gate them.
#[verifier::ext_equal]
pub struct GroupSetup {
    pub core: CoreView,
    pub sides: Seq<P2PFlowEndpoint>,
}

/// One gate per send or receive of a group, behind the start of the group and
/// beside its stream.
pub open spec fn group_setup(
    core: CoreView,
    host: HostId,
    curr_time: i64,
    group_start: EventId,
    calls: Seq<P2PCallInfo>,
) -> GroupSetup
    decreases calls.len(),
{
    if calls.len() == 0 {
        GroupSetup { core, sides: seq![] }
    } else {
        let before = group_setup(core, host, curr_time, group_start, calls.drop_last());
        let call = calls.last();
        let barrier = before.core.next();
        let held = before.core.op(point(seq![None], curr_time));
        let flow_start = held.next();
        let started = held.op(point(seq![Some(group_start), Some(barrier)], curr_time));
        let flow_end = started.next();
        GroupSetup {
            core: started.op(point(seq![Some(flow_start)], curr_time)),
            sides: before.sides.push(
                P2PFlowEndpoint {
                    host,
                    stream: call.stream,
                    curr_time,
                    count: call.count,
                    dtype: call.dtype,
                    flow_start,
                    flow_end,
                    unmatched_barrier: barrier,
                },
            ),
        }
    }
}

/// What the end of a group waits for: its start and the end of each transfer.
pub open spec fn group_end_deps(
    group_start: EventId,
    sides: Seq<P2PFlowEndpoint>,
) -> Seq<Option<EventId>> {
    seq![Some(group_start)] + sides.map_values(|e: P2PFlowEndpoint| Some(e.flow_end))
}

impl P2PState {
    /// After the first `n` sides of a group arrived.
    pub open spec fn arrive_all(
        self,
        calls: Seq<P2PCallInfo>,
        sides: Seq<P2PFlowEndpoint>,
        n: int,
    ) -> P2PState
        decreases n,
    {
        if n <= 0 {
            self
        } else {
            self.arrive_all(calls, sides, n - 1).arrive(
                calls[n - 1].kind,
                calls[n - 1].key,
                sides[n - 1],
            )
        }
    }

    /// After the sends and receives of a group on one stream. The stream is
    /// occupied from the start of the group until all its transfers ended, which
    /// run beside each other.
    pub open spec fn group(
        self,
        host: HostId,
        curr_time: i64,
        stream: CudaStream,
        calls: Seq<P2PCallInfo>,
    ) -> P2PState {
        let name = (host@, stream);
        let barrier = self.core.next();
        let held = self.core.op(point(seq![None], curr_time));
        let group_start = held.event_id(name);
        let started = held.event(name, seq![Some(barrier)], None, curr_time);
        let setup = group_setup(started, host, curr_time, group_start, calls);
        let ended = setup.core.event(
            name,
            group_end_deps(group_start, setup.sides),
            None,
            curr_time,
        );
        let matched = (P2PState { core: ended, ..self }).arrive_all(
            calls,
            setup.sides,
            calls.len() as int,
        );
        P2PState {
            core: matched.core.op(OpView::RemoveNoneDependency { event: barrier }),
            ..matched
        }
    }

    /// After the sends and receives of a group on some streams.
    pub open spec fn groups(
        self,
        host: HostId,
        curr_time: i64,
        streams: Seq<CudaStream>,
        calls: Seq<P2PCallInfo>,
    ) -> P2PState
        decreases streams.len(),
    {
        if streams.len() == 0 {
            self
        } else {
            self.groups(host, curr_time, streams.drop_last(), calls).group(
                host,
                curr_time,
                streams.last(),
                on_stream(calls, streams.last()),
            )
        }
    }

    /// After a group of calls: its sends and receives on each stream form a group
    /// of their own.
    pub open spec fn grouped(self, host: HostId, curr_time: i64, calls: Seq<CudaCall>) -> P2PState {
        let p2p = p2p_calls(calls);
        self.groups(host, curr_time, streams_of(p2p), p2p)
    }
}

/// Keeps the sides of transfers that wait for their peers.
pub struct P2PMatcher {
    send_waiting: Table<P2PKey, VecDeque<P2PFlowEndpoint>>,
    recv_waiting: Table<P2PKey, VecDeque<P2PFlowEndpoint>>,
}

impl View for P2PMatcher {
    type V = P2PView;

    closed spec fn view(&self) -> P2PView {
        P2PView { send: self.send_waiting@, recv: self.recv_waiting@ }
    }
}

fn pop_p2p_endpoint(
    waiting: &mut Table<P2PKey, VecDeque<P2PFlowEndpoint>>,
    key: &P2PKey,
) -> (r: Option<P2PFlowEndpoint>)
    ensures
        final(waiting)@ == popped(old(waiting)@, key@),
        match r {
            Some(e) => has_waiting(old(waiting)@, key@) && e == old(waiting)@[key@][0],
            None => !has_waiting(old(waiting)@, key@),
        },
{
    let mut endpoint: Option<P2PFlowEndpoint> = None;
    let mut emptied = false;
    if let Some(queue) = waiting.get_mut(key) {
        endpoint = queue.pop_front();
        emptied = queue.len() == 0;
        assert(old(waiting)@[key@].len() > 0 ==> queue@ =~= old(waiting)@[key@].skip(1));
    }
    if emptied {
        waiting.remove(key);
    }
    assert(waiting@ =~= popped(old(waiting)@, key@));
    endpoint
}

fn push_p2p_endpoint(
    waiting: &mut Table<P2PKey, VecDeque<P2PFlowEndpoint>>,
    key: P2PKey,
    endpoint: P2PFlowEndpoint,
)
    ensures
        final(waiting)@ == enqueued(old(waiting)@, key@, endpoint),
{
    if let Some(queue) = waiting.get_mut(&key) {
        queue.push_back(endpoint);
        return;
    }
    let mut queue: VecDeque<P2PFlowEndpoint> = VecDeque::new();
    queue.push_back(endpoint);
    assert(queue@ =~= seq![endpoint]);
    waiting.insert(key, queue);
}

/// Whether the byte sizes of the buffers of some calls are machine numbers.
pub open spec fn calls_fit(calls: Seq<P2PCallInfo>) -> bool {
    forall|i: int|
        0 <= i < calls.len() ==> bytes_fit((#[trigger] calls[i]).count, calls[i].dtype)
}

/// Whether the streams of some calls have their buffered calls ready.
pub open spec fn streams_ready(core: CoreView, host: HostId, calls: Seq<P2PCallInfo>) -> bool {
    forall|i: int| 0 <= i < calls.len() ==> core.ready((host@, (#[trigger] calls[i]).stream))
}

proof fn lemma_streams_from_calls(calls: Seq<P2PCallInfo>, stream: CudaStream)
    requires
        streams_of(calls).contains(stream),
    ensures
        exists|n: int| 0 <= n < calls.len() && #[trigger] calls[n].stream == stream,
    decreases calls.len(),
{
    let before = calls.drop_last();
    if calls.last().stream == stream {
        assert(calls[calls.len() - 1].stream == stream);
    } else {
        let k = choose|k: int| 0 <= k < streams_of(calls).len() && streams_of(calls)[k] == stream;
        assert(streams_of(before).contains(stream)) by {
            if !streams_of(before).contains(calls.last().stream) {
                assert(streams_of(before)[k] == stream);
            }
        }
        lemma_streams_from_calls(before, stream);
        let n = choose|n: int| 0 <= n < before.len() && #[trigger] before[n].stream == stream;
        assert(calls[n] == before[n]);
    }
}

proof fn lemma_on_stream(calls: Seq<P2PCallInfo>, stream: CudaStream)
    requires
        calls_fit(calls),
    ensures
        calls_fit(on_stream(calls, stream)),
    decreases calls.len(),
{
    reveal(Seq::filter);
    if calls.len() > 0 {
        let before = calls.drop_last();
        assert(calls_fit(before)) by {
            assert(forall|i: int| 0 <= i < before.len() ==> before[i] == calls[i]);
        }
        lemma_on_stream(before, stream);
        assert(bytes_fit(calls[calls.len() - 1].count, calls[calls.len() - 1].dtype));
    }
}

fn call_info(call: &CudaCall) -> (r: Option<P2PCallInfo>)
    ensures
        r == p2p_call(*call),
{
    match *call {
        CudaCall::NcclSend { count, dtype, peer, comm, stream } => Some(
            P2PCallInfo {
                kind: P2PCallKind::Send,
                key: p2p_key(P2PCallKind::Send, comm, peer),
                stream,
                count,
                dtype,
            },
        ),
        CudaCall::NcclRecv { count, dtype, peer, comm, stream } => Some(
            P2PCallInfo {
                kind: P2PCallKind::Recv,
                key: p2p_key(P2PCallKind::Recv, comm, peer),
                stream,
                count,
                dtype,
            },
        ),
        _ => None,
    }
}

/// The sends and receives among some calls.
pub fn collect_p2p(calls: &Vec<CudaCall>) -> (r: Vec<P2PCallInfo>)
    ensures
        r@ == p2p_calls(calls@),
{
    let mut r: Vec<P2PCallInfo> = Vec::new();
    let mut i: usize = 0;
    while i < calls.len()
        invariant
            i <= calls.len(),
            r@ == p2p_calls(calls@.take(i as int)),
        decreases calls.len() - i,
    {
        assert(calls@.take(i + 1).drop_last() =~= calls@.take(i as int));
        if let Some(info) = call_info(&calls[i]) {
            r.push(info);
        }
        i += 1;
    }
    assert(calls@.take(calls@.len() as int) =~= calls@);
    r
}

fn collect_streams(calls: &Vec<P2PCallInfo>) -> (r: Vec<CudaStream>)
    ensures
        r@ == streams_of(calls@),
{
    let mut r: Vec<CudaStream> = Vec::new();
    let mut i: usize = 0;
    while i < calls.len()
        invariant
            i <= calls.len(),
            r@ == streams_of(calls@.take(i as int)),
        decreases calls.len() - i,
    {
        assert(calls@.take(i + 1).drop_last() =~= calls@.take(i as int));
        let stream = calls[i].stream;
        let mut known = false;
        let mut j: usize = 0;
        while j < r.len()
            invariant
                j <= r.len(),
                known == exists|k: int| 0 <= k < j && r@[k] == stream,
            decreases r.len() - j,
        {
            if r[j] == stream {
                known = true;
                assert(r@[j as int] == stream);
            }
            j += 1;
        }
        assert(known == r@.contains(stream));
        if !known {
            r.push(stream);
        }
        i += 1;
    }
    assert(calls@.take(calls@.len() as int) =~= calls@);
    r
}

fn calls_on(calls: &Vec<P2PCallInfo>, stream: CudaStream) -> (r: Vec<P2PCallInfo>)
    ensures
        r@ == on_stream(calls@, stream),
{
    let mut r: Vec<P2PCallInfo> = Vec::new();
    let mut i: usize = 0;
    proof {
        reveal(Seq::filter);
    }
    assert(r@ =~= on_stream(calls@.take(0), stream));
    while i < calls.len()
        invariant
            i <= calls.len(),
            r@ == on_stream(calls@.take(i as int), stream),
        decreases calls.len() - i,
    {
        proof {
            reveal(Seq::filter);
            assert(calls@.take(i + 1).drop_last() =~= calls@.take(i as int));
        }
        if calls[i].stream == stream {
            r.push(calls[i]);
        }
        i += 1;
    }
    assert(calls@.take(calls@.len() as int) =~= calls@);
    r
}

/// Lets a matched pair transfer its data.
fn schedule_p2p_flow(
    core: &mut StreamCore,
    send: P2PFlowEndpoint,
    recv: P2PFlowEndpoint,
    key: &P2PKey,
)
    requires
        bytes_fit(send.count, send.dtype),
    ensures
        final(core)@ == scheduled(old(core)@, send, recv, *key),
{
    let send_bytes = send.count * send.dtype.size();
    let flow = Flow {
        bytes: send_bytes,
        src: send.host.hostname.clone(),
        dst: recv.host.hostname.clone(),
    };
    let curr_time = if send.curr_time < recv.curr_time {
        recv.curr_time
    } else {
        send.curr_time
    };
    let mut depends_on: Vec<Option<EventId>> = Vec::new();
    depends_on.push(Some(send.flow_start));
    depends_on.push(Some(recv.flow_start));
    assert(depends_on@ =~= seq![Some(send.flow_start), Some(recv.flow_start)]);
    let flow_event = core.add_action(
        depends_on,
        Action::Communication(
            flow,
            CudaCall::NcclSend {
                count: send_bytes,
                dtype: NcclDatatype::U8,
                peer: key.receiver,
                comm: NcclComm { rank: key.sender, id: key.comm.0 },
                stream: send.stream,
            },
        ),
        curr_time,
    );
    core.add_dependency(send.flow_end, flow_event);
    core.add_dependency(recv.flow_end, flow_event);
    core.release(send.unmatched_barrier);
    core.release(recv.unmatched_barrier);
}

impl P2PMatcher {
    /// Nobody waits.
    pub fn new() -> (m: Self)
        ensures
            m@ == (P2PView { send: Map::empty(), recv: Map::empty() }),
    {
        P2PMatcher { send_waiting: Table::new(), recv_waiting: Table::new() }
    }

    fn pop_matching_peer_endpoint(
        &mut self,
        kind: P2PCallKind,
        key: &P2PKey,
    ) -> (r: Option<P2PFlowEndpoint>)
        ensures
            final(self)@ == old(self)@.with_other(kind, popped(old(self)@.other(kind), key@)),
            match r {
                Some(e) => has_waiting(old(self)@.other(kind), key@) && e == old(self)@.other(
                    kind,
                )[key@][0],
                None => !has_waiting(old(self)@.other(kind), key@),
            },
    {
        match kind {
            P2PCallKind::Send => pop_p2p_endpoint(&mut self.recv_waiting, key),
            P2PCallKind::Recv => pop_p2p_endpoint(&mut self.send_waiting, key),
        }
    }

    fn enqueue_unmatched_p2p_endpoint(
        &mut self,
        kind: P2PCallKind,
        key: P2PKey,
        endpoint: P2PFlowEndpoint,
    )
        ensures
            final(self)@ == old(self)@.with_side(
                kind,
                enqueued(old(self)@.side(kind), key@, endpoint),
            ),
    {
        match kind {
            P2PCallKind::Send => push_p2p_endpoint(&mut self.send_waiting, key, endpoint),
            P2PCallKind::Recv => push_p2p_endpoint(&mut self.recv_waiting, key, endpoint),
        }
    }

    /// Matches a side with its peer, or lets it wait.
    pub fn match_or_enqueue_p2p_endpoint(
        &mut self,
        core: &mut StreamCore,
        kind: P2PCallKind,
        key: P2PKey,
        endpoint: P2PFlowEndpoint,
    )
        requires
            old(self)@.sizes_fit(),
            bytes_fit(endpoint.count, endpoint.dtype),
        ensures
            final(self)@.sizes_fit(),
            (P2PState { core: final(core)@, p2p: final(self)@ }) == (P2PState {
                core: old(core)@,
                p2p: old(self)@,
            }).arrive(kind, key, endpoint),
    {
        match self.pop_matching_peer_endpoint(kind, &key) {
            Some(peer) => {
                match kind {
                    P2PCallKind::Send => schedule_p2p_flow(core, endpoint, peer, &key),
                    P2PCallKind::Recv => schedule_p2p_flow(core, peer, endpoint, &key),
                }
            },
            None => self.enqueue_unmatched_p2p_endpoint(kind, key, endpoint),
        }
    }

    /// A send or receive outside any group.
    pub fn nccl_ungrouped_p2p(
        &mut self,
        core: &mut StreamCore,
        host: HostId,
        curr_time: i64,
        call: P2PCallInfo,
    )
        requires
            old(self)@.sizes_fit(),
            bytes_fit(call.count, call.dtype),
            old(core)@.ready((host@, call.stream)),
        ensures
            final(self)@.sizes_fit(),
            (P2PState { core: final(core)@, p2p: final(self)@ }) == (P2PState {
                core: old(core)@,
                p2p: old(self)@,
            }).ungrouped(host, curr_time, call),
    {
        let key = StreamKey { host: host.clone(), stream: call.stream };
        let mut held: Vec<Option<EventId>> = Vec::new();
        held.push(None);
        assert(held@ =~= seq![None]);
        let unmatched_barrier = core.add_point(held, curr_time);
        let mut after: Vec<Option<EventId>> = Vec::new();
        after.push(Some(unmatched_barrier));
        assert(after@ =~= seq![Some(unmatched_barrier)]);
        let flow_start = core.add_event(&key, after, None, curr_time);
        let mut after: Vec<Option<EventId>> = Vec::new();
        after.push(Some(flow_start));
        assert(after@ =~= seq![Some(flow_start)]);
        let flow_end = core.add_event(&key, after, None, curr_time);
        let endpoint = P2PFlowEndpoint {
            host,
            stream: call.stream,
            curr_time,
            count: call.count,
            dtype: call.dtype,
            flow_start,
            flow_end,
            unmatched_barrier,
        };
        self.match_or_enqueue_p2p_endpoint(core, call.kind, call.key, endpoint);
    }

    /// The sends and receives of a group on one stream.
    fn nccl_p2p_group_on(
        &mut self,
        core: &mut StreamCore,
        host: &HostId,
        curr_time: i64,
        stream: CudaStream,
        calls: &Vec<P2PCallInfo>,
    )
        requires
            old(self)@.sizes_fit(),
            calls_fit(calls@),
            old(core)@.ready((host@, stream)),
        ensures
            final(self)@.sizes_fit(),
            (P2PState { core: final(core)@, p2p: final(self)@ }) == (P2PState {
                core: old(core)@,
                p2p: old(self)@,
            }).group(*host, curr_time, stream, calls@),
            forall|o: StreamName| #[trigger] old(core)@.ready(o) ==> final(core)@.ready(o),
    {
        let ghost name = (host@, stream);
        let ghost first = core@;
        let key = StreamKey { host: host.clone(), stream };
        let mut held: Vec<Option<EventId>> = Vec::new();
        held.push(None);
        assert(held@ =~= seq![None]);
        let group_barrier = core.add_point(held, curr_time);
        let mut after: Vec<Option<EventId>> = Vec::new();
        after.push(Some(group_barrier));
        assert(after@ =~= seq![Some(group_barrier)]);
        let ghost held_core = core@;
        let group_start = core.add_event(&key, after, None, curr_time);
        let ghost started = core@;
        proof {
            lemma_event_clear(held_core, name, seq![Some(group_barrier)], None, curr_time);
            assert forall|o: StreamName| #[trigger] first.ready(o) implies started.ready(o) by {
                assert(held_core.ready(o));
                lemma_event_ready(
                    held_core,
                    name,
                    seq![Some(group_barrier)],
                    None,
                    curr_time,
                    o,
                );
            }
        }

        let mut sides: Vec<P2PFlowEndpoint> = Vec::new();
        let mut end_deps: Vec<Option<EventId>> = Vec::new();
        end_deps.push(Some(group_start));
        assert(group_setup(started, *host, curr_time, group_start, calls@.take(0))
            =~= (GroupSetup { core: core@, sides: sides@ }));
        assert(end_deps@ =~= group_end_deps(group_start, sides@));
        let mut i: usize = 0;
        while i < calls.len()
            invariant
                i <= calls.len(),
                sides@.len() == i,
                group_setup(started, *host, curr_time, group_start, calls@.take(i as int)) == (
                GroupSetup { core: core@, sides: sides@ }),
                end_deps@ == group_end_deps(group_start, sides@),
                forall|j: int|
                    0 <= j < i ==> (#[trigger] sides@[j]).count == calls@[j].count && sides@[j].dtype
                        == calls@[j].dtype,
                core@.times == started.times,
                core@.streams == started.streams,
                core@.single == started.single,
            decreases calls.len() - i,
        {
            let call = calls[i];
            let ghost prev = sides@;
            let ghost before = core@;
            let mut held: Vec<Option<EventId>> = Vec::new();
            held.push(None);
            assert(held@ =~= seq![None]);
            let unmatched_barrier = core.add_point(held, curr_time);
            let mut after: Vec<Option<EventId>> = Vec::new();
            after.push(Some(group_start));
            after.push(Some(unmatched_barrier));
            assert(after@ =~= seq![Some(group_start), Some(unmatched_barrier)]);
            let flow_start = core.add_point(after, curr_time);
            let mut after: Vec<Option<EventId>> = Vec::new();
            after.push(Some(flow_start));
            assert(after@ =~= seq![Some(flow_start)]);
            let flow_end = core.add_point(after, curr_time);
            sides.push(
                P2PFlowEndpoint {
                    host: host.clone(),
                    stream: call.stream,
                    curr_time,
                    count: call.count,
                    dtype: call.dtype,
                    flow_start,
                    flow_end,
                    unmatched_barrier,
                },
            );
            end_deps.push(Some(flow_end));
            proof {
                assert(calls@.take(i + 1).drop_last() =~= calls@.take(i as int));
                assert(end_deps@ =~= group_end_deps(group_start, sides@));
            }
            i += 1;
        }
        assert(calls@.take(calls@.len() as int) =~= calls@);
        let ghost setup = core@;
        core.add_event(&key, end_deps, None, curr_time);
        let ghost ended = core@;
        let ghost all = sides@;
        proof {
            assert forall|o: StreamName| #[trigger] first.ready(o) implies ended.ready(o) by {
                assert(started.ready(o));
                assert(setup.ready(o));
                lemma_event_ready(
                    setup,
                    name,
                    group_end_deps(group_start, all),
                    None,
                    curr_time,
                    o,
                );
            }
        }
        let ghost begin = P2PState { core: ended, p2p: self@ };
        let mut j: usize = 0;
        for side in it: sides
            invariant
                it.seq() == all,
                j == it.index(),
                all.len() == calls@.len(),
                calls_fit(calls@),
                self@.sizes_fit(),
                forall|k: int|
                    0 <= k < all.len() ==> (#[trigger] all[k]).count == calls@[k].count
                        && all[k].dtype == calls@[k].dtype,
                begin.arrive_all(calls@, all, j as int) == (P2PState { core: core@, p2p: self@ }),
                core@.times == ended.times,
                core@.streams == ended.streams,
                core@.single == ended.single,
        {
            assert(side == all[j as int]);
            let call = calls[j];
            assert(bytes_fit(calls@[j as int].count, calls@[j as int].dtype));
            self.match_or_enqueue_p2p_endpoint(core, call.kind, call.key, side);
            assert(j < calls.len());
            j += 1;
        }
        let ghost matched = core@;
        core.release(group_barrier);
        proof {
            assert forall|o: StreamName| #[trigger] first.ready(o) implies core@.ready(o) by {
                assert(ended.ready(o));
            }
        }
    }

    /// A group of calls. Its sends and receives on each stream form a group of
    /// their own, stream by stream in the order in which they come up; calls of
    /// other kinds are passed over.
    pub fn nccl_grouped_p2p(
        &mut self,
        core: &mut StreamCore,
        host: &HostId,
        curr_time: i64,
        calls: &Vec<CudaCall>,
    )
        requires
            old(self)@.sizes_fit(),
            calls_fit(p2p_calls(calls@)),
            streams_ready(old(core)@, *host, p2p_calls(calls@)),
        ensures
            final(self)@.sizes_fit(),
            (P2PState { core: final(core)@, p2p: final(self)@ }) == (P2PState {
                core: old(core)@,
                p2p: old(self)@,
            }).grouped(*host, curr_time, calls@),
    {
        let p2p = collect_p2p(calls);
        let streams = collect_streams(&p2p);
        let ghost begin = P2PState { core: core@, p2p: self@ };
        let ghost first = core@;
        assert(streams@.take(0) =~= seq![]);
        let mut i: usize = 0;
        while i < streams.len()
            invariant
                i <= streams.len(),
                streams@ == streams_of(p2p@),
                calls_fit(p2p@),
                self@.sizes_fit(),
                streams_ready(first, *host, p2p@),
                forall|o: StreamName| #[trigger] first.ready(o) ==> core@.ready(o),
                begin.groups(*host, curr_time, streams@.take(i as int), p2p@) == (P2PState {
                    core: core@,
                    p2p: self@,
                }),
            decreases streams.len() - i,
        {
            let stream = streams[i];
            proof {
                lemma_streams_from_calls(p2p@, stream);
                let n = choose|n: int| 0 <= n < p2p@.len() && p2p@[n].stream == stream;
                assert(first.ready((host@, p2p@[n].stream)));
                lemma_on_stream(p2p@, stream);
            }
            let part = calls_on(&p2p, stream);
            self.nccl_p2p_group_on(core, host, curr_time, stream, &part);
            assert(streams@.take(i + 1).drop_last() =~= streams@.take(i as int));
            i += 1;
        }
        assert(streams@.take(streams@.len() as int) =~= streams@);
    }
}

/// A side that arrives leaves no key with both a send and a receive that wait,
/// and no key without one.
pub proof fn law_arrive_settled(
    state: P2PState,
    kind: P2PCallKind,
    key: P2PKey,
    endpoint: P2PFlowEndpoint,
)
    requires
        state.p2p.settled(),
    ensures
        state.arrive(kind, key, endpoint).p2p.settled(),
{
}

/// Sides of one key are matched in the order in which they arrived: a side that
/// finds nobody goes behind those that wait, and a side that finds peers takes
/// the one that arrived first and leaves the others in their order.
pub proof fn law_first_come_first_matched(
    state: P2PState,
    kind: P2PCallKind,
    key: P2PKey,
    endpoint: P2PFlowEndpoint,
)
    requires
        state.p2p.settled(),
    ensures
        ({
            let after = state.arrive(kind, key, endpoint);
            if state.p2p.other(kind).contains_key(key@) {
                let peers = state.p2p.other(kind)[key@];
                &&& after.core == match kind {
                    P2PCallKind::Send => scheduled(state.core, endpoint, peers[0], key),
                    P2PCallKind::Recv => scheduled(state.core, peers[0], endpoint, key),
                }
                &&& after.p2p.side(kind) == state.p2p.side(kind)
                &&& if peers.len() == 1 {
                    !after.p2p.other(kind).contains_key(key@)
                } else {
                    after.p2p.other(kind).contains_key(key@) && after.p2p.other(kind)[key@]
                        == peers.skip(1)
                }
            } else {
                let mine = state.p2p.side(kind);
                &&& after.core == state.core
                &&& after.p2p.other(kind) == state.p2p.other(kind)
                &&& after.p2p.side(kind).contains_key(key@)
                &&& after.p2p.side(kind)[key@] == if mine.contains_key(key@) {
                    mine[key@].push(endpoint)
                } else {
                    seq![endpoint]
                }
            }
        }),
        forall|k: P2PName|
            k != key@ ==> #[trigger] state.arrive(kind, key, endpoint).p2p.send.contains_key(k)
                == state.p2p.send.contains_key(k) && state.arrive(
                kind,
                key,
                endpoint,
            ).p2p.send[k] == state.p2p.send[k],
        forall|k: P2PName|
            k != key@ ==> #[trigger] state.arrive(kind, key, endpoint).p2p.recv.contains_key(k)
                == state.p2p.recv.contains_key(k) && state.arrive(
                kind,
                key,
                endpoint,
            ).p2p.recv[k] == state.p2p.recv[k],
{
}

proof fn lemma_arrive_all_settled(
    state: P2PState,
    calls: Seq<P2PCallInfo>,
    sides: Seq<P2PFlowEndpoint>,
    n: int,
)
    requires
        state.p2p.settled(),
    ensures
        state.arrive_all(calls, sides, n).p2p.settled(),
    decreases n,
{
    if n > 0 {
        lemma_arrive_all_settled(state, calls, sides, n - 1);
        law_arrive_settled(
            state.arrive_all(calls, sides, n - 1),
            calls[n - 1].kind,
            calls[n - 1].key,
            sides[n - 1],
        );
    }
}

proof fn lemma_groups_settled(
    state: P2PState,
    host: HostId,
    curr_time: i64,
    streams: Seq<CudaStream>,
    calls: Seq<P2PCallInfo>,
)
    requires
        state.p2p.settled(),
    ensures
        state.groups(host, curr_time, streams, calls).p2p.settled(),
    decreases streams.len(),
{
    if streams.len() > 0 {
        lemma_groups_settled(state, host, curr_time, streams.drop_last(), calls);
        let before = state.groups(host, curr_time, streams.drop_last(), calls);
        let part = on_stream(calls, streams.last());
        let name = (host@, streams.last());
        let barrier = before.core.next();
        let held = before.core.op(point(seq![None], curr_time));
        let group_start = held.event_id(name);
        let started = held.event(name, seq![Some(barrier)], None, curr_time);
        let setup = group_setup(started, host, curr_time, group_start, part);
        let ended = setup.core.event(
            name,
            group_end_deps(group_start, setup.sides),
            None,
            curr_time,
        );
        lemma_arrive_all_settled(
            P2PState { core: ended, ..before },
            part,
            setup.sides,
            part.len() as int,
        );
    }
}

/// No send or receive, grouped or not, leaves a key with both sides waiting.
pub proof fn law_p2p_settled(
    state: P2PState,
    host: HostId,
    curr_time: i64,
    call: P2PCallInfo,
    calls: Seq<CudaCall>,
)
    requires
        state.p2p.settled(),
    ensures
        state.ungrouped(host, curr_time, call).p2p.settled(),
        state.grouped(host, curr_time, calls).p2p.settled(),
{
    lemma_groups_settled(
        state,
        host,
        curr_time,
        streams_of(p2p_calls(calls)),
        p2p_calls(calls),
    );
}

} // verus!
