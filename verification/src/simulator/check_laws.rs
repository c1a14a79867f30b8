//! What a call needs before it can be handled, and when it cannot be.

use crate::cuda_call::{CudaCall, CudaCallMsg, CudaMemcpyKind, CudaStream, NcclComm};
use crate::perf_db::FlashAttnKey;
use crate::simulator::p2p::{p2p_call, p2p_calls};
use crate::simulator::p2p_laws::width;
use crate::simulator::stream_laws::{lemma_filtered, on_device, streams_listed};
use crate::simulator::streams::{
    entries_check, lemma_check, lemma_check_all, of_device, split, CheckView, CoreView, SeqView,
    StreamName,
};
use crate::simulator::{p2p_names, NeedView, Refusal, SimView};
use crate::torch_call::{call_infos, sequence_hash, CallView};
use crate::torch_estimate::TorchTimes;
use vstd::prelude::*;

verus! {

/// Whether a run of calls has to be measured: none of its times is recorded, and times are
/// not replayed.
pub open spec fn unmeasured(times: TorchTimes, calls: Seq<CallView>) -> bool {
    !times.sequence.contains_key(sequence_hash(calls)) && !times.replay
}

/// Whether a run of calls has fewer recorded times than calls.
pub open spec fn cut_short(times: TorchTimes, calls: Seq<CallView>) -> bool {
    times.sequence.contains_key(sequence_hash(calls))
        && times.sequence[sequence_hash(calls)].len() < calls.len()
}

/// Whether a piece of the calls buffered on a stream lacks a time.
pub open spec fn lacks_times(times: TorchTimes, piece: SeqView) -> bool {
    match piece {
        SeqView::Single(_, _) => false,
        SeqView::Run(calls) => unmeasured(times, call_infos(calls)) || cut_short(
            times,
            call_infos(calls),
        ),
    }
}

/// Whether piece `k` is the first one that lacks a time.
pub open spec fn first_lacking(times: TorchTimes, pieces: Seq<SeqView>, k: int) -> bool {
    &&& 0 <= k < pieces.len()
    &&& lacks_times(times, pieces[k])
    &&& forall|j: int| 0 <= j < k ==> !lacks_times(times, #[trigger] pieces[j])
}

proof fn lemma_first_lacking(times: TorchTimes, pieces: Seq<SeqView>, i: int) -> (k: int)
    requires
        0 <= i <= pieces.len(),
    ensures
        i <= k <= pieces.len(),
        forall|j: int| i <= j < k ==> !lacks_times(times, #[trigger] pieces[j]),
        entries_check(times, pieces, i) is Ready <==> k == pieces.len(),
        k < pieces.len() ==> lacks_times(times, pieces[k]) && match pieces[k] {
            SeqView::Single(_, _) => false,
            SeqView::Run(calls) => if unmeasured(times, call_infos(calls)) {
                entries_check(times, pieces, i) == CheckView::Measure(call_infos(calls))
            } else {
                entries_check(times, pieces, i) is Short
            },
        },
    decreases pieces.len() - i,
{
    if i >= pieces.len() || lacks_times(times, pieces[i]) {
        if i < pieces.len() {
            if let SeqView::Run(calls) = pieces[i] {
                assert(times.replayed(call_infos(calls)).len() == call_infos(calls).len());
            }
        }
        i
    } else {
        if let SeqView::Run(calls) = pieces[i] {
            assert(times.replayed(call_infos(calls)).len() == call_infos(calls).len());
        }
        lemma_first_lacking(times, pieces, i + 1)
    }
}

/// A stream is ready when every call buffered on it has a time. Otherwise the first run of
/// its calls that lacks one is in the way: it is to be measured, or where times are
/// recorded for it they are too few.
pub proof fn law_stream_checked(core: CoreView, name: StreamName) -> (k: int)
    ensures
        ({
            let pieces = split(core.stream(name).buffered, core.single);
            &&& core.ready(name) <==> core.check(name) is Ready
            &&& core.ready(name) <==> k == pieces.len()
            &&& core.ready(name) <==> forall|j: int|
                0 <= j < pieces.len() ==> !lacks_times(core.times, #[trigger] pieces[j])
            &&& !core.ready(name) ==> first_lacking(core.times, pieces, k) && match pieces[k] {
                SeqView::Single(_, _) => false,
                SeqView::Run(calls) => if unmeasured(core.times, call_infos(calls)) {
                    core.check(name) == CheckView::Measure(call_infos(calls))
                } else {
                    core.check(name) is Short
                },
            }
        }),
{
    lemma_check(core, name);
    let pieces = split(core.stream(name).buffered, core.single);
    let k = lemma_first_lacking(core.times, pieces, 0);
    if k < pieces.len() {
        assert(lacks_times(core.times, pieces[k]));
    }
    k
}

/// Of some streams the first one that is not ready is in the way.
pub proof fn law_first_stream_in_the_way(core: CoreView, names: Seq<StreamName>) -> (k: int)
    ensures
        0 <= k <= names.len(),
        forall|j: int| 0 <= j < k ==> core.ready(#[trigger] names[j]),
        k == names.len() ==> core.check_all(names, 0) is Ready,
        k < names.len() ==> !core.ready(names[k]) && core.check_all(names, 0) == core.check(
            names[k],
        ),
{
    lemma_first_in_the_way(core, names, 0)
}

proof fn lemma_first_in_the_way(core: CoreView, names: Seq<StreamName>, i: int) -> (k: int)
    requires
        0 <= i <= names.len(),
    ensures
        i <= k <= names.len(),
        forall|j: int| i <= j < k ==> core.ready(#[trigger] names[j]),
        k == names.len() ==> core.check_all(names, i) is Ready,
        k < names.len() ==> !core.ready(names[k]) && core.check_all(names, i) == core.check(
            names[k],
        ),
    decreases names.len() - i,
{
    if i < names.len() {
        lemma_check(core, names[i]);
        if core.ready(names[i]) {
            lemma_first_in_the_way(core, names, i + 1)
        } else {
            i
        }
    } else {
        i
    }
}

/// Whether a call has the operators that are buffered on a stream turned into events.
pub open spec fn clears(s: SimView, msg: CudaCallMsg, name: StreamName) -> bool {
    let host = msg.id.host@;
    match msg.call {
        CudaCall::CudaMemcpyAsync { stream, .. } => name == (host, stream),
        CudaCall::CudaDeviceSynchronize(device) => s.core.streams.contains_key(name) && on_device(
            name,
            host,
            device,
        ),
        CudaCall::CudaStreamSynchronize(stream) => name == (host, stream),
        CudaCall::CudaStreamWaitEvent { stream, .. } => name == (host, stream),
        CudaCall::CudaStreamQuery(stream) => name == (host, stream),
        CudaCall::CudaEventRecord(event) => name.0 == host && name.1.device == event.device
            && name.1.id == event.stream,
        CudaCall::CudaAddLatency(stream, _) => name == (host, stream),
        CudaCall::FlashAttnCall { stream, .. } => name == (host, stream),
        CudaCall::NcclBcast { stream, .. } => name == (host, stream),
        CudaCall::NcclAllReduce { stream, .. } => name == (host, stream),
        CudaCall::NcclAllGather { stream, .. } => name == (host, stream),
        CudaCall::NcclReduceScatter { stream, .. } => name == (host, stream),
        CudaCall::NcclSend { stream, .. } => name == (host, stream),
        CudaCall::NcclRecv { stream, .. } => name == (host, stream),
        CudaCall::NcclP2pGroup { calls } => name.0 == host && exists|i: int|
            0 <= i < calls@.len() && transfers_on(#[trigger] calls@[i], name.1),
        CudaCall::CudaEventSynchronize(_) => false,
        CudaCall::CudaEventQuery(_) => false,
        CudaCall::NcclGetUniqueId => false,
        CudaCall::NcclCommInitRank { .. } => false,
        CudaCall::NcclCommSplit { .. } => false,
        CudaCall::ReadTimer(_) => false,
    }
}

/// Whether a call is a send or receive on a stream.
pub open spec fn transfers_on(call: CudaCall, on: CudaStream) -> bool {
    match call {
        CudaCall::NcclSend { stream, .. } => stream == on,
        CudaCall::NcclRecv { stream, .. } => stream == on,
        _ => false,
    }
}

/// Whether a call is a send or receive of more bytes than a machine number holds.
pub open spec fn too_large(call: CudaCall) -> bool {
    match call {
        CudaCall::NcclSend { count, dtype, .. } => count * width(dtype) > usize::MAX,
        CudaCall::NcclRecv { count, dtype, .. } => count * width(dtype) > usize::MAX,
        _ => false,
    }
}

/// Why a collective on a communicator cannot be handled whatever its stream holds, if it
/// cannot be.
pub open spec fn collective_hopeless(s: SimView, comm: NcclComm) -> Option<Refusal> {
    if !s.comms.groups.contains_key(comm.id@) {
        Some(Refusal::UnknownCommunicator)
    } else if s.collectives.begun.contains_key(comm.id@) && s.collectives.begun[comm.id@]
        == u64::MAX {
        Some(Refusal::TooMany)
    } else {
        None
    }
}

/// Why a call cannot be handled whatever the streams hold, if it cannot be.
pub open spec fn hopeless(s: SimView, msg: CudaCallMsg) -> Option<Refusal> {
    let host = msg.id.host@;
    match msg.call {
        CudaCall::CudaStreamWaitEvent { event, .. } => if s.events.contains_key((host, event)) {
            None
        } else {
            Some(Refusal::UnknownEvent)
        },
        CudaCall::CudaEventSynchronize(event) => if s.events.contains_key((host, event)) {
            None
        } else {
            Some(Refusal::UnknownEvent)
        },
        CudaCall::CudaEventQuery(event) => if s.events.contains_key((host, event)) {
            None
        } else {
            Some(Refusal::UnknownEvent)
        },
        CudaCall::NcclCommInitRank { rank, nranks, id, .. } => if s.comms.init.contains_key(id@)
            && (forall|r: i32|
            s.comms.init[id@].waiting_for.contains(r) ==> r == rank) && exists|i: i32|
            0 <= i < nranks && i != rank && !#[trigger] s.comms.init[id@].joined.contains_key(i) {
            Some(Refusal::MissingRanks)
        } else {
            None
        },
        CudaCall::NcclBcast { comm, .. } => collective_hopeless(s, comm),
        CudaCall::NcclAllReduce { comm, .. } => collective_hopeless(s, comm),
        CudaCall::NcclAllGather { comm, .. } => collective_hopeless(s, comm),
        CudaCall::NcclReduceScatter { comm, .. } => collective_hopeless(s, comm),
        CudaCall::NcclSend { .. } => if too_large(msg.call) {
            Some(Refusal::TooLarge)
        } else {
            None
        },
        CudaCall::NcclRecv { .. } => if too_large(msg.call) {
            Some(Refusal::TooLarge)
        } else {
            None
        },
        CudaCall::NcclP2pGroup { calls } => if exists|i: int|
            0 <= i < calls@.len() && too_large(#[trigger] calls@[i]) {
            Some(Refusal::TooLarge)
        } else {
            None
        },
        _ => None,
    }
}

/// Whether a call is a copy of some kind and size whose time has to be measured.
pub open spec fn copy_unmeasured(
    s: SimView,
    msg: CudaCallMsg,
    kind: CudaMemcpyKind,
    size: usize,
) -> bool {
    &&& msg.call matches CudaCall::CudaMemcpyAsync { size: n, kind: k, .. } && k == kind && n
        == size
    &&& s.cuda.gpu is Some
    &&& !s.cuda.memcpy.contains_key((kind, size))
}

/// Whether a call runs a kernel whose time has to be measured.
pub open spec fn kernel_unmeasured(s: SimView, msg: CudaCallMsg, key: FlashAttnKey) -> bool {
    &&& msg.call is FlashAttnCall
    &&& crate::simulator::flash_key(msg.call) == key
    &&& s.cuda.gpu is Some
    &&& !s.cuda.flash_attn.contains_key(key)
}

/// Whether a call needs nothing but what the streams hold.
pub open spec fn only_streams(s: SimView, msg: CudaCallMsg) -> bool {
    &&& hopeless(s, msg) is None
    &&& forall|kind: CudaMemcpyKind, size: usize| !#[trigger] copy_unmeasured(s, msg, kind, size)
    &&& forall|key: FlashAttnKey| !#[trigger] kernel_unmeasured(s, msg, key)
}

proof fn lemma_sides(calls: Seq<CudaCall>, stream: CudaStream)
    ensures
        (exists|i: int| 0 <= i < calls.len() && too_large(#[trigger] calls[i]))
            <==> !crate::simulator::p2p::calls_fit(p2p_calls(calls)),
        (exists|i: int| 0 <= i < calls.len() && transfers_on(#[trigger] calls[i], stream))
            <==> exists|i: int|
            0 <= i < p2p_calls(calls).len() && (#[trigger] p2p_calls(calls)[i]).stream == stream,
    decreases calls.len(),
{
    if calls.len() > 0 {
        let front = calls.drop_last();
        let last = calls.last();
        let all = p2p_calls(calls);
        let some = p2p_calls(front);
        let n = calls.len() - 1;
        lemma_sides(front, stream);
        assert(too_large(last) <==> (p2p_call(last) matches Some(c)
            && !crate::simulator::p2p::bytes_fit(c.count, c.dtype)));
        assert(transfers_on(last, stream) <==> (p2p_call(last) matches Some(c) && c.stream
            == stream));
        assert forall|i: int| 0 <= i < some.len() implies #[trigger] all[i] == some[i] by {}
        if too_large(last) {
            assert(too_large(calls[n]));
            assert(!crate::simulator::p2p::bytes_fit(
                all[some.len() as int].count,
                all[some.len() as int].dtype,
            ));
        } else if exists|i: int| 0 <= i < front.len() && too_large(#[trigger] front[i]) {
            let i = choose|i: int| 0 <= i < front.len() && too_large(#[trigger] front[i]);
            assert(too_large(calls[i]));
            let j = choose|j: int|
                0 <= j < some.len() && !crate::simulator::p2p::bytes_fit(
                    (#[trigger] some[j]).count,
                    some[j].dtype,
                );
            assert(all[j] == some[j]);
        } else {
            assert forall|i: int| 0 <= i < calls.len() implies !too_large(#[trigger] calls[i]) by {
                if i < n {
                    assert(calls[i] == front[i]);
                }
            }
            assert forall|j: int| 0 <= j < all.len() implies crate::simulator::p2p::bytes_fit(
                (#[trigger] all[j]).count,
                all[j].dtype,
            ) by {
                if j < some.len() {
                    assert(all[j] == some[j]);
                }
            }
        }
        if transfers_on(last, stream) {
            assert(transfers_on(calls[n], stream));
            assert(all[some.len() as int].stream == stream);
        } else {
            if exists|i: int| 0 <= i < calls.len() && transfers_on(#[trigger] calls[i], stream) {
                let i = choose|i: int|
                    0 <= i < calls.len() && transfers_on(#[trigger] calls[i], stream);
                assert(i < n);
                assert(transfers_on(front[i], stream));
                let j = choose|j: int| 0 <= j < some.len() && (#[trigger] some[j]).stream == stream;
                assert(all[j].stream == stream);
            }
            if exists|j: int| 0 <= j < all.len() && (#[trigger] all[j]).stream == stream {
                let j = choose|j: int| 0 <= j < all.len() && (#[trigger] all[j]).stream == stream;
                assert(j < some.len());
                assert(some[j].stream == stream);
                let i = choose|i: int|
                    0 <= i < front.len() && transfers_on(#[trigger] front[i], stream);
                assert(transfers_on(calls[i], stream));
            }
        }
    }
}

/// The streams that a call clears are those whose checks it goes by.
proof fn lemma_cleared_checked(s: SimView, msg: CudaCallMsg)
    requires
        streams_listed(s.core),
        only_streams(s, msg),
    ensures
        s.need(msg) is Ready <==> forall|name: StreamName|
            clears(s, msg, name) ==> #[trigger] s.core.ready(name),
        s.need(msg) is Ready || s.need(msg) is MeasureRun || s.need(msg) == NeedView::Refused(
            Refusal::ShortRun,
        ),
{
    let host = msg.id.host@;
    match msg.call {
        CudaCall::CudaDeviceSynchronize(device) => {
            let names = s.core.device_streams(host, device);
            let keep = of_device(host, device);
            lemma_check_all(s.core, names, 0);
            lemma_filtered(s.core.order, keep);
            assert forall|name: StreamName| #[trigger] names.contains(name) <==> clears(
                s,
                msg,
                name,
            ) by {
                assert(s.core.order.contains(name) <==> s.core.streams.contains_key(name));
                assert(keep(name) <==> on_device(name, host, device));
            }
            lemma_ready_listed(s, msg, names);
        },
        CudaCall::NcclP2pGroup { calls } => {
            let infos = p2p_calls(calls@);
            let names = p2p_names(host, infos);
            lemma_check_all(s.core, names, 0);
            lemma_sides(calls@, CudaStream { device: 0, id: arbitrary() });
            assert forall|name: StreamName| #[trigger] names.contains(name) <==> clears(
                s,
                msg,
                name,
            ) by {
                lemma_sides(calls@, name.1);
                if names.contains(name) {
                    let i = choose|i: int| 0 <= i < names.len() && names[i] == name;
                    assert(infos[i].stream == name.1);
                }
                if clears(s, msg, name) {
                    let i = choose|i: int|
                        0 <= i < infos.len() && (#[trigger] infos[i]).stream == name.1;
                    assert(names[i] == name);
                }
            }
            lemma_ready_listed(s, msg, names);
        },
        CudaCall::CudaMemcpyAsync { size, kind, stream } => {
            assert(!copy_unmeasured(s, msg, kind, size));
            lemma_check(s.core, (host, stream));
        },
        CudaCall::FlashAttnCall { stream, .. } => {
            assert(!kernel_unmeasured(s, msg, crate::simulator::flash_key(msg.call)));
            lemma_check(s.core, (host, stream));
        },
        CudaCall::CudaStreamSynchronize(stream) => lemma_check(s.core, (host, stream)),
        CudaCall::CudaStreamWaitEvent { stream, .. } => lemma_check(s.core, (host, stream)),
        CudaCall::CudaStreamQuery(stream) => lemma_check(s.core, (host, stream)),
        CudaCall::CudaEventRecord(event) => {
            let name = (host, CudaStream { device: event.device, id: event.stream });
            lemma_check(s.core, name);
            assert forall|n: StreamName| #[trigger] clears(s, msg, n) <==> n == name by {}
            assert(clears(s, msg, name));
        },
        CudaCall::CudaAddLatency(stream, _) => lemma_check(s.core, (host, stream)),
        CudaCall::NcclBcast { stream, .. } => lemma_check(s.core, (host, stream)),
        CudaCall::NcclAllReduce { stream, .. } => lemma_check(s.core, (host, stream)),
        CudaCall::NcclAllGather { stream, .. } => lemma_check(s.core, (host, stream)),
        CudaCall::NcclReduceScatter { stream, .. } => lemma_check(s.core, (host, stream)),
        CudaCall::NcclSend { stream, .. } => lemma_check(s.core, (host, stream)),
        CudaCall::NcclRecv { stream, .. } => lemma_check(s.core, (host, stream)),
        CudaCall::NcclCommInitRank { rank, nranks, id, .. } => {
            lemma_can_init(s, rank, nranks, id@);
        },
        _ => {},
    }
}

proof fn lemma_ready_listed(s: SimView, msg: CudaCallMsg, names: Seq<StreamName>)
    requires
        forall|name: StreamName| #[trigger] names.contains(name) <==> clears(s, msg, name),
    ensures
        (forall|j: int| 0 <= j < names.len() ==> s.core.ready(#[trigger] names[j])) <==> forall|
            name: StreamName,
        | clears(s, msg, name) ==> #[trigger] s.core.ready(name),
{
    if forall|name: StreamName| clears(s, msg, name) ==> #[trigger] s.core.ready(name) {
        assert forall|j: int| 0 <= j < names.len() implies s.core.ready(#[trigger] names[j]) by {
            assert(names.contains(names[j]));
        }
    }
    if forall|j: int| 0 <= j < names.len() ==> s.core.ready(#[trigger] names[j]) {
        assert forall|name: StreamName| clears(s, msg, name) implies #[trigger] s.core.ready(
            name,
        ) by {
            assert(names.contains(name));
        }
    }
}

proof fn lemma_can_init(s: SimView, rank: i32, nranks: i32, id: Seq<u8>)
    ensures
        !s.comms.can_init(rank, nranks, id) <==> s.comms.init.contains_key(id) && (forall|r: i32|
            s.comms.init[id].waiting_for.contains(r) ==> r == rank) && exists|i: i32|
            0 <= i < nranks && i != rank && !#[trigger] s.comms.init[id].joined.contains_key(i),
{
    let left = s.comms.init[id].waiting_for;
    if left.remove(rank) =~= Set::empty() {
        assert forall|r: i32| left.contains(r) implies r == rank by {
            assert(!left.remove(rank).contains(r));
        }
    }
    if forall|r: i32| left.contains(r) ==> r == rank {
        assert(left.remove(rank) =~= Set::empty());
    }
}

/// A call can be handled exactly where it is not hopeless, the time of its copy or kernel
/// is known, and every operator has a time that is buffered on a stream that the call
/// clears.
pub proof fn law_ready_exactly(s: SimView, msg: CudaCallMsg)
    requires
        streams_listed(s.core),
    ensures
        s.need(msg) is Ready <==> only_streams(s, msg) && forall|name: StreamName|
            clears(s, msg, name) ==> #[trigger] s.core.ready(name),
        only_streams(s, msg) ==> s.need(msg) is Ready || s.need(msg) is MeasureRun || s.need(msg)
            == NeedView::Refused(Refusal::ShortRun),
{
    law_refused_exactly(s, msg);
    if only_streams(s, msg) {
        lemma_cleared_checked(s, msg);
    } else if let CudaCall::CudaMemcpyAsync { size, kind, .. } = msg.call {
        assert(s.need(msg) is Ready ==> !copy_unmeasured(s, msg, kind, size));
    } else if msg.call is FlashAttnCall {
        assert(s.need(msg) is Ready ==> !kernel_unmeasured(
            s,
            msg,
            crate::simulator::flash_key(msg.call),
        ));
    }
}

/// A call is refused for want of an event, a communicator, its ranks or a number that
/// holds it exactly where it is hopeless for that reason, whatever the streams hold.
pub proof fn law_refused_exactly(s: SimView, msg: CudaCallMsg)
    ensures
        hopeless(s, msg) matches Some(why) ==> s.need(msg) == NeedView::Refused(why) && why
            != Refusal::ShortRun,
        s.need(msg) matches NeedView::Refused(why) ==> why == Refusal::ShortRun || hopeless(s, msg)
            == Some(why),
{
    match msg.call {
        CudaCall::NcclP2pGroup { calls } => {
            lemma_sides(calls@, CudaStream { device: 0, id: arbitrary() });
        },
        CudaCall::NcclCommInitRank { rank, nranks, id, .. } => {
            lemma_can_init(s, rank, nranks, id@);
        },
        _ => {},
    }
}

/// A copy or a kernel is to be measured exactly where it is called, its time is not known
/// and there is a GPU to measure it on.
pub proof fn law_measured_exactly(
    s: SimView,
    msg: CudaCallMsg,
    kind: CudaMemcpyKind,
    size: usize,
    key: FlashAttnKey,
)
    ensures
        s.need(msg) == NeedView::MeasureMemcpy(kind, size) <==> copy_unmeasured(
            s,
            msg,
            kind,
            size,
        ),
        s.need(msg) == NeedView::MeasureFlashAttn(key) <==> kernel_unmeasured(s, msg, key),
{
}

} // verus!
