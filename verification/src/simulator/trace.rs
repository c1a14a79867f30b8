//! What is told of collective operations where their matching is traced.

use crate::cuda_call::{CudaStream, NcclDatatype, NcclReduceOp};
use crate::json::{
    distinct_keys, entries, json_text, lemma_json_view, proper, tree_text, trees, Json, JsonNumber,
    JsonTree,
};
use crate::lines::texts;
use crate::nccl_id::{short_nccl_id, NcclId};
use crate::simulator::collectives::{NcclCollectiveSignature, Participant};
use crate::sort::views;
use crate::text::{ascii_lower, chars_of, hex_text, same_text, text_of};
use vstd::prelude::*;

verus! {

/// A text with its ASCII letters made small.
pub open spec fn lower_text(s: Seq<char>) -> Seq<char> {
    s.map_values(|c: char| ascii_lower(c))
}

/// Whether a setting asks for the trace.
pub open spec fn asks_for_trace(value: Seq<char>) -> bool {
    let v = lower_text(value);
    v == "1"@ || v == "true"@ || v == "yes"@ || v == "on"@
}

/// Whether a setting asks for the trace: it is "1", "true", "yes" or "on", in small or
/// large letters.
pub fn match_trace_flag(value: &str) -> (b: bool)
    ensures
        b == asks_for_trace(value@),
{
    let chars = chars_of(value);
    let mut lower: Vec<char> = Vec::new();
    let mut i: usize = 0;
    while i < chars.len()
        invariant
            i <= chars@.len(),
            chars@ == value@,
            lower@ == lower_text(value@).take(i as int),
        decreases chars@.len() - i,
    {
        let c = chars[i];
        lower.push(small_letter(c));
        assert(lower@ =~= lower_text(value@).take(i + 1));
        i += 1;
    }
    let n = lower.len();
    let text = text_of(&lower, 0, n);
    assert(text@ =~= lower_text(value@));
    let t = text.as_str();
    same_text(t, "1") || same_text(t, "true") || same_text(t, "yes") || same_text(t, "on")
}

fn small_letter(c: char) -> (l: char)
    ensures
        l == ascii_lower(c),
{
    if 'A' <= c && c <= 'Z' {
        ((c as u8) + 32) as char
    } else {
        c
    }
}

impl NcclDatatype {
    /// The name by which it is told.
    pub open spec fn text(self) -> Seq<char> {
        match self {
            NcclDatatype::I8 => "I8"@,
            NcclDatatype::U8 => "U8"@,
            NcclDatatype::I32 => "I32"@,
            NcclDatatype::U32 => "U32"@,
            NcclDatatype::I64 => "I64"@,
            NcclDatatype::U64 => "U64"@,
            NcclDatatype::F16 => "F16"@,
            NcclDatatype::F32 => "F32"@,
            NcclDatatype::F64 => "F64"@,
            NcclDatatype::Bf16 => "Bf16"@,
        }
    }

    /// The name by which it is told.
    pub fn name(self) -> (s: &'static str)
        ensures
            s@ == self.text(),
    {
        match self {
            NcclDatatype::I8 => "I8",
            NcclDatatype::U8 => "U8",
            NcclDatatype::I32 => "I32",
            NcclDatatype::U32 => "U32",
            NcclDatatype::I64 => "I64",
            NcclDatatype::U64 => "U64",
            NcclDatatype::F16 => "F16",
            NcclDatatype::F32 => "F32",
            NcclDatatype::F64 => "F64",
            NcclDatatype::Bf16 => "Bf16",
        }
    }
}

impl NcclReduceOp {
    /// The name by which it is told.
    pub open spec fn text(self) -> Seq<char> {
        match self {
            NcclReduceOp::Sum => "Sum"@,
            NcclReduceOp::Prod => "Prod"@,
            NcclReduceOp::Max => "Max"@,
            NcclReduceOp::Min => "Min"@,
            NcclReduceOp::Avg => "Avg"@,
        }
    }

    /// The name by which it is told.
    pub fn name(self) -> (s: &'static str)
        ensures
            s@ == self.text(),
    {
        match self {
            NcclReduceOp::Sum => "Sum",
            NcclReduceOp::Prod => "Prod",
            NcclReduceOp::Max => "Max",
            NcclReduceOp::Min => "Min",
            NcclReduceOp::Avg => "Avg",
        }
    }
}

/// A number that is not negative, or a negative one, as a value.
pub open spec fn number_tree(n: int) -> JsonTree {
    if n >= 0 {
        JsonTree::Number(JsonNumber::PosInt(n as u64))
    } else {
        JsonTree::Number(JsonNumber::NegInt(n as i64))
    }
}

/// What an operation is told as: its name, the number and type of its elements, and
/// what else its ranks have to agree on.
pub open spec fn signature_tree(signature: NcclCollectiveSignature) -> JsonTree {
    JsonTree::Object(
        match signature {
            NcclCollectiveSignature::Bcast { count, dtype, root } => seq![
                ("op"@, JsonTree::Text("bcast"@)),
                ("count"@, JsonTree::Number(JsonNumber::PosInt(count as u64))),
                ("dtype"@, JsonTree::Text(dtype.text())),
                ("root"@, number_tree(root as int)),
            ],
            NcclCollectiveSignature::AllReduce { count, dtype, op } => seq![
                ("op"@, JsonTree::Text("all_reduce"@)),
                ("count"@, JsonTree::Number(JsonNumber::PosInt(count as u64))),
                ("dtype"@, JsonTree::Text(dtype.text())),
                ("reduce_op"@, JsonTree::Text(op.text())),
            ],
            NcclCollectiveSignature::AllGather { count, dtype } => seq![
                ("op"@, JsonTree::Text("all_gather"@)),
                ("count"@, JsonTree::Number(JsonNumber::PosInt(count as u64))),
                ("dtype"@, JsonTree::Text(dtype.text())),
            ],
            NcclCollectiveSignature::ReduceScatter { count, dtype, op } => seq![
                ("op"@, JsonTree::Text("reduce_scatter"@)),
                ("count"@, JsonTree::Number(JsonNumber::PosInt(count as u64))),
                ("dtype"@, JsonTree::Text(dtype.text())),
                ("reduce_op"@, JsonTree::Text(op.text())),
            ],
        },
    )
}

/// What happened when a rank took part in a collective.
#[derive(Debug, PartialEq, Eq)]
pub enum MatchEvent {
    /// It arrived where so many collectives waited.
    Arrive { queue_len: usize },
    /// It began a collective.
    NewWaiting { sequence: u64, waiting_for: Vec<i32> },
    /// It joined a collective.
    Join {
        sequence: u64,
        waiting_index: usize,
        waiting_for_before: Vec<i32>,
        waiting_for_after: Vec<i32>,
        joined_ranks: Vec<i32>,
    },
    /// It was the last to join.
    Complete { sequence: u64, joined_ranks: Vec<i32> },
}

/// What a [`MatchEvent`] stands for.
#[verifier::ext_equal]
pub enum MatchView {
    Arrive { queue_len: usize },
    NewWaiting { sequence: u64, waiting_for: Seq<i32> },
    Join {
        sequence: u64,
        waiting_index: usize,
        waiting_for_before: Seq<i32>,
        waiting_for_after: Seq<i32>,
        joined_ranks: Seq<i32>,
    },
    Complete { sequence: u64, joined_ranks: Seq<i32> },
}

impl View for MatchEvent {
    type V = MatchView;

    open spec fn view(&self) -> MatchView {
        match *self {
            MatchEvent::Arrive { queue_len } => MatchView::Arrive { queue_len },
            MatchEvent::NewWaiting { sequence, waiting_for } => MatchView::NewWaiting {
                sequence,
                waiting_for: waiting_for@,
            },
            MatchEvent::Join {
                sequence,
                waiting_index,
                waiting_for_before,
                waiting_for_after,
                joined_ranks,
            } => MatchView::Join {
                sequence,
                waiting_index,
                waiting_for_before: waiting_for_before@,
                waiting_for_after: waiting_for_after@,
                joined_ranks: joined_ranks@,
            },
            MatchEvent::Complete { sequence, joined_ranks } => MatchView::Complete {
                sequence,
                joined_ranks: joined_ranks@,
            },
        }
    }
}

fn text_entry(key: &str, value: &str) -> (e: (String, Json))
    ensures
        e.0@ == key@,
        e.1@ == JsonTree::Text(value@),
{
    broadcast use lemma_json_view;

    (key.to_owned(), Json::Text(value.to_owned()))
}

fn value_entry(key: &str, value: Json) -> (e: (String, Json))
    ensures
        e.0@ == key@,
        e.1@ == value@,
{
    (key.to_owned(), value)
}

fn count_json(n: u64) -> (j: Json)
    ensures
        j@ == number_tree(n as int),
{
    broadcast use lemma_json_view;

    Json::Number(JsonNumber::PosInt(n))
}

fn number_json(n: i64) -> (j: Json)
    ensures
        j@ == number_tree(n as int),
{
    broadcast use lemma_json_view;

    if n >= 0 {
        Json::Number(JsonNumber::PosInt(n as u64))
    } else {
        Json::Number(JsonNumber::NegInt(n))
    }
}

/// What an operation is told as.
pub fn signature_json(signature: NcclCollectiveSignature) -> (j: Json)
    ensures
        j@ == signature_tree(signature),
        proper(j@),
{
    broadcast use lemma_json_view;

    let mut m: Vec<(String, Json)> = Vec::new();
    match signature {
        NcclCollectiveSignature::Bcast { count, dtype, root } => {
            m.push(text_entry("op", "bcast"));
            m.push(value_entry("count", count_json(count as u64)));
            m.push(text_entry("dtype", dtype.name()));
            m.push(value_entry("root", number_json(root as i64)));
        },
        NcclCollectiveSignature::AllReduce { count, dtype, op } => {
            m.push(text_entry("op", "all_reduce"));
            m.push(value_entry("count", count_json(count as u64)));
            m.push(text_entry("dtype", dtype.name()));
            m.push(text_entry("reduce_op", op.name()));
        },
        NcclCollectiveSignature::AllGather { count, dtype } => {
            m.push(text_entry("op", "all_gather"));
            m.push(value_entry("count", count_json(count as u64)));
            m.push(text_entry("dtype", dtype.name()));
        },
        NcclCollectiveSignature::ReduceScatter { count, dtype, op } => {
            m.push(text_entry("op", "reduce_scatter"));
            m.push(value_entry("count", count_json(count as u64)));
            m.push(text_entry("dtype", dtype.name()));
            m.push(text_entry("reduce_op", op.name()));
        },
    }
    assert(entries(m@) =~= signature_tree(signature)->Object_0);
    proof {
        lemma_signature_proper(signature);
    }
    Json::Object(m)
}

/// Some ranks as a value.
pub open spec fn ranks_tree(ranks: Seq<i32>) -> JsonTree {
    JsonTree::Array(ranks.map_values(|r: i32| number_tree(r as int)))
}

fn ranks_json(ranks: &Vec<i32>) -> (j: Json)
    ensures
        j@ == ranks_tree(ranks@),
{
    broadcast use lemma_json_view;

    let ghost goal = ranks@.map_values(|r: i32| number_tree(r as int));
    let mut out: Vec<Json> = Vec::new();
    let mut i: usize = 0;
    while i < ranks.len()
        invariant
            i <= ranks@.len(),
            goal == ranks@.map_values(|r: i32| number_tree(r as int)),
            trees(out@) == goal.take(i as int),
        decreases ranks@.len() - i,
    {
        let ghost prev = out@;
        out.push(number_json(ranks[i] as i64));
        assert(trees(out@) =~= trees(prev).push(goal[i as int]));
        assert(trees(out@) =~= goal.take(i + 1));
        i += 1;
    }
    assert(trees(out@) =~= goal);
    Json::Array(out)
}

/// A stream as a value.
pub open spec fn stream_tree(stream: CudaStream) -> JsonTree {
    JsonTree::Object(
        seq![
            ("device"@, number_tree(stream.device as int)),
            ("id"@, number_tree(stream.id as int)),
        ],
    )
}

fn stream_json(stream: CudaStream) -> (j: Json)
    ensures
        j@ == stream_tree(stream),
{
    broadcast use lemma_json_view;

    let mut m: Vec<(String, Json)> = Vec::new();
    m.push(value_entry("device", number_json(stream.device as i64)));
    m.push(value_entry("id", count_json(stream.id)));
    assert(entries(m@) =~= stream_tree(stream)->Object_0);
    Json::Object(m)
}

/// The communicator of a rank, by the first bytes of its identifier.
pub open spec fn comm_tree(p: Participant) -> JsonTree {
    JsonTree::Text(hex_text(p.comm.id@.take(8)))
}

/// What is told of a rank that took part in a collective.
pub open spec fn event_tree(p: Participant, e: MatchView) -> JsonTree {
    JsonTree::Object(
        match e {
            MatchView::Arrive { queue_len } => seq![
                ("event"@, JsonTree::Text("arrive"@)),
                ("comm_id"@, comm_tree(p)),
                ("rank"@, number_tree(p.comm.rank as int)),
                ("host"@, JsonTree::Text(p.host.hostname@)),
                ("pid"@, number_tree(p.host.pid as int)),
                ("stream"@, stream_tree(p.stream)),
                ("curr_time"@, number_tree(p.curr_time as int)),
                ("queue_len"@, number_tree(queue_len as int)),
                ("signature"@, signature_tree(p.signature)),
            ],
            MatchView::NewWaiting { sequence, waiting_for } => seq![
                ("event"@, JsonTree::Text("new_waiting"@)),
                ("comm_id"@, comm_tree(p)),
                ("sequence"@, number_tree(sequence as int)),
                ("rank"@, number_tree(p.comm.rank as int)),
                ("host"@, JsonTree::Text(p.host.hostname@)),
                ("pid"@, number_tree(p.host.pid as int)),
                ("stream"@, stream_tree(p.stream)),
                ("curr_time"@, number_tree(p.curr_time as int)),
                ("signature"@, signature_tree(p.signature)),
                ("waiting_for"@, ranks_tree(waiting_for)),
            ],
            MatchView::Join {
                sequence,
                waiting_index,
                waiting_for_before,
                waiting_for_after,
                joined_ranks,
            } => seq![
                ("event"@, JsonTree::Text("join"@)),
                ("comm_id"@, comm_tree(p)),
                ("sequence"@, number_tree(sequence as int)),
                ("rank"@, number_tree(p.comm.rank as int)),
                ("host"@, JsonTree::Text(p.host.hostname@)),
                ("pid"@, number_tree(p.host.pid as int)),
                ("stream"@, stream_tree(p.stream)),
                ("curr_time"@, number_tree(p.curr_time as int)),
                ("waiting_index"@, number_tree(waiting_index as int)),
                ("signature"@, signature_tree(p.signature)),
                ("waiting_for_before"@, ranks_tree(waiting_for_before)),
                ("waiting_for_after"@, ranks_tree(waiting_for_after)),
                ("joined_ranks"@, ranks_tree(joined_ranks)),
            ],
            MatchView::Complete { sequence, joined_ranks } => seq![
                ("event"@, JsonTree::Text("complete"@)),
                ("comm_id"@, comm_tree(p)),
                ("sequence"@, number_tree(sequence as int)),
                ("rank"@, number_tree(p.comm.rank as int)),
                ("curr_time"@, number_tree(p.curr_time as int)),
                ("signature"@, signature_tree(p.signature)),
                ("joined_ranks"@, ranks_tree(joined_ranks)),
            ],
        },
    )
}

/// What is told of a rank that took part in a collective.
pub fn event_json(p: &Participant, e: &MatchEvent) -> (j: Json)
    ensures
        j@ == event_tree(*p, e@),
        proper(j@),
{
    broadcast use lemma_json_view;

    let comm = Json::Text(short_nccl_id(&NcclId(p.comm.id)));
    let rank = number_json(p.comm.rank as i64);
    let time = number_json(p.curr_time);
    let signature = signature_json(p.signature);
    let mut m: Vec<(String, Json)> = Vec::new();
    match e {
        MatchEvent::Arrive { queue_len } => {
            m.push(text_entry("event", "arrive"));
            m.push(value_entry("comm_id", comm));
            m.push(value_entry("rank", rank));
            m.push(text_entry("host", p.host.hostname.as_str()));
            m.push(value_entry("pid", count_json(p.host.pid as u64)));
            m.push(value_entry("stream", stream_json(p.stream)));
            m.push(value_entry("curr_time", time));
            m.push(value_entry("queue_len", count_json(*queue_len as u64)));
            m.push(value_entry("signature", signature));
        },
        MatchEvent::NewWaiting { sequence, waiting_for } => {
            m.push(text_entry("event", "new_waiting"));
            m.push(value_entry("comm_id", comm));
            m.push(value_entry("sequence", count_json(*sequence)));
            m.push(value_entry("rank", rank));
            m.push(text_entry("host", p.host.hostname.as_str()));
            m.push(value_entry("pid", count_json(p.host.pid as u64)));
            m.push(value_entry("stream", stream_json(p.stream)));
            m.push(value_entry("curr_time", time));
            m.push(value_entry("signature", signature));
            m.push(value_entry("waiting_for", ranks_json(waiting_for)));
        },
        MatchEvent::Join {
            sequence,
            waiting_index,
            waiting_for_before,
            waiting_for_after,
            joined_ranks,
        } => {
            m.push(text_entry("event", "join"));
            m.push(value_entry("comm_id", comm));
            m.push(value_entry("sequence", count_json(*sequence)));
            m.push(value_entry("rank", rank));
            m.push(text_entry("host", p.host.hostname.as_str()));
            m.push(value_entry("pid", count_json(p.host.pid as u64)));
            m.push(value_entry("stream", stream_json(p.stream)));
            m.push(value_entry("curr_time", time));
            m.push(value_entry("waiting_index", count_json(*waiting_index as u64)));
            m.push(value_entry("signature", signature));
            m.push(value_entry("waiting_for_before", ranks_json(waiting_for_before)));
            m.push(value_entry("waiting_for_after", ranks_json(waiting_for_after)));
            m.push(value_entry("joined_ranks", ranks_json(joined_ranks)));
        },
        MatchEvent::Complete { sequence, joined_ranks } => {
            m.push(text_entry("event", "complete"));
            m.push(value_entry("comm_id", comm));
            m.push(value_entry("sequence", count_json(*sequence)));
            m.push(value_entry("rank", rank));
            m.push(value_entry("curr_time", time));
            m.push(value_entry("signature", signature));
            m.push(value_entry("joined_ranks", ranks_json(joined_ranks)));
        },
    }
    assert(entries(m@) =~= event_tree(*p, e@)->Object_0);
    proof {
        lemma_event_proper(*p, e@);
    }
    Json::Object(m)
}

proof fn lemma_event_keys()
    ensures
        "event"@.len() == 5,
        "comm_id"@.len() == 7,
        "sequence"@.len() == 8,
        "rank"@.len() == 4 && "rank"@[0] == 'r',
        "host"@.len() == 4 && "host"@[0] == 'h',
        "pid"@.len() == 3,
        "stream"@.len() == 6,
        "curr_time"@.len() == 9 && "curr_time"@[0] == 'c',
        "queue_len"@.len() == 9 && "queue_len"@[0] == 'q',
        "signature"@.len() == 9 && "signature"@[0] == 's',
        "waiting_index"@.len() == 13,
        "waiting_for"@.len() == 11,
        "waiting_for_before"@.len() == 18,
        "waiting_for_after"@.len() == 17,
        "joined_ranks"@.len() == 12,
{
    reveal_strlit("event");
    reveal_strlit("comm_id");
    reveal_strlit("sequence");
    reveal_strlit("rank");
    reveal_strlit("host");
    reveal_strlit("pid");
    reveal_strlit("stream");
    reveal_strlit("curr_time");
    reveal_strlit("queue_len");
    reveal_strlit("signature");
    reveal_strlit("waiting_index");
    reveal_strlit("waiting_for");
    reveal_strlit("waiting_for_before");
    reveal_strlit("waiting_for_after");
    reveal_strlit("joined_ranks");
}

proof fn lemma_signature_proper(signature: NcclCollectiveSignature)
    ensures
        proper(signature_tree(signature)),
{
    reveal_strlit("op");
    reveal_strlit("count");
    reveal_strlit("dtype");
    reveal_strlit("root");
    reveal_strlit("reduce_op");
    assert("op"@.len() == 2 && "root"@.len() == 4 && "reduce_op"@.len() == 9);
    assert("count"@.len() == 5 && "count"@[0] == 'c');
    assert("dtype"@.len() == 5 && "dtype"@[0] == 'd');
    let m = signature_tree(signature)->Object_0;
    assert(distinct_keys(m));
    assert forall|i: int| 0 <= i < m.len() implies proper((#[trigger] m[i]).1) by {}
}

proof fn lemma_stream_proper(stream: CudaStream)
    ensures
        proper(stream_tree(stream)),
{
    reveal_strlit("device");
    reveal_strlit("id");
    assert("device"@.len() == 6 && "id"@.len() == 2);
    let m = stream_tree(stream)->Object_0;
    assert(distinct_keys(m));
    assert forall|i: int| 0 <= i < m.len() implies proper((#[trigger] m[i]).1) by {}
}

proof fn lemma_ranks_proper(ranks: Seq<i32>)
    ensures
        proper(ranks_tree(ranks)),
{
    let a = ranks.map_values(|r: i32| number_tree(r as int));
    assert forall|i: int| 0 <= i < a.len() implies proper(#[trigger] a[i]) by {
        assert(a[i] == number_tree(ranks[i] as int));
    }
}

proof fn lemma_event_proper(p: Participant, e: MatchView)
    ensures
        proper(event_tree(p, e)),
{
    lemma_event_keys();
    lemma_signature_proper(p.signature);
    lemma_stream_proper(p.stream);
    match e {
        MatchView::Arrive { .. } => {},
        MatchView::NewWaiting { waiting_for, .. } => lemma_ranks_proper(waiting_for),
        MatchView::Join { waiting_for_before, waiting_for_after, joined_ranks, .. } => {
            lemma_ranks_proper(waiting_for_before);
            lemma_ranks_proper(waiting_for_after);
            lemma_ranks_proper(joined_ranks);
        },
        MatchView::Complete { joined_ranks, .. } => lemma_ranks_proper(joined_ranks),
    }
    let m = event_tree(p, e)->Object_0;
    assert(distinct_keys(m));
    assert forall|i: int| 0 <= i < m.len() implies proper((#[trigger] m[i]).1) by {}
}

/// What is told of a rank that took part in a collective, as texts.
pub open spec fn event_texts(p: Participant, events: Seq<MatchView>) -> Seq<Seq<char>> {
    events.map_values(|e: MatchView| tree_text(event_tree(p, e)))
}

/// What is told of a rank that took part in a collective, as texts.
pub fn event_lines(p: &Participant, events: &Vec<MatchEvent>) -> (r: Vec<String>)
    ensures
        texts(r@) == event_texts(*p, views(events@)),
{
    let ghost goal = event_texts(*p, views(events@));
    let mut r: Vec<String> = Vec::new();
    let mut i: usize = 0;
    while i < events.len()
        invariant
            i <= events@.len(),
            goal == event_texts(*p, views(events@)),
            texts(r@) == goal.take(i as int),
        decreases events@.len() - i,
    {
        let ghost prev = r@;
        let line = json_text(event_json(p, &events[i]));
        r.push(line);
        assert(texts(r@) =~= texts(prev).push(goal[i as int]));
        assert(texts(r@) =~= goal.take(i + 1));
        i += 1;
    }
    assert(texts(r@) =~= goal);
    r
}

} // verus!
