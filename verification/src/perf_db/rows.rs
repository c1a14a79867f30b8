//! The rows of the recorded tables.

use crate::cuda_call::CudaMemcpyKind;
use crate::duration::Duration;
use crate::json::{json_text, parse_json, text_tree, tree_text};
use crate::lines::{
    free_of, join_texts, joined, lemma_joined_split, push_text, split_str, split_text, texts,
};
use crate::perf_db::call_json::{call_json, call_value, json_call, read_call};
use crate::perf_db::call_laws::{
    law_call_read_back, law_read_call_well_typed, lemma_held_call, lemma_key_shape, valid_call,
};
use crate::perf_db::codec::{
    compact_value, compacted, expand_value, expanded, key_sorted, sort_object_keys,
};
use crate::perf_db::csv_io::{record, Record};
use crate::perf_db::FlashAttnKey;
use crate::sort::Ranked;
use crate::text::{
    bool_text, bool_value, decimal, flag_text, i32_value, lemma_bool_round_trip, lemma_decimal,
    lemma_i32_round_trip, lemma_text_order, lemma_text_transitive, lemma_unsigned_round_trip,
    parse_flag, parse_i32, parse_unsigned, same_text, signed_decimal, signed_text, text_le,
    text_not_after, unsigned_text, unsigned_value,
};
use crate::torch_call::{CallView, TorchCallInfo};
use vstd::prelude::*;

verus! {

/// Why a recorded table cannot be read.
#[derive(Debug)]
pub enum LoadError {
    /// A row is no CSV, or has another number of fields than the header.
    Csv,
    /// A row has too few fields.
    ShortRow,
    /// The key of a call is no JSON.
    BadJson,
    /// The key of a call is no call.
    BadKey,
    /// A number is none, or too large.
    BadNumber,
    /// A flag is neither `true` nor `false`.
    BadFlag,
    /// There is no kind of copy of this name.
    UnknownKind(String),
}

/// What a [`LoadError`] stands for.
#[verifier::ext_equal]
pub enum LoadErrorView {
    Csv,
    ShortRow,
    BadJson,
    BadKey,
    BadNumber,
    BadFlag,
    UnknownKind(Seq<char>),
}

impl View for LoadError {
    type V = LoadErrorView;

    open spec fn view(&self) -> LoadErrorView {
        match *self {
            LoadError::Csv => LoadErrorView::Csv,
            LoadError::ShortRow => LoadErrorView::ShortRow,
            LoadError::BadJson => LoadErrorView::BadJson,
            LoadError::BadKey => LoadErrorView::BadKey,
            LoadError::BadNumber => LoadErrorView::BadNumber,
            LoadError::BadFlag => LoadErrorView::BadFlag,
            LoadError::UnknownKind(kind) => LoadErrorView::UnknownKind(kind@),
        }
    }
}

impl LoadErrorView {
    /// The error in words.
    pub open spec fn text(self) -> Seq<char> {
        match self {
            LoadErrorView::Csv => "malformed CSV row"@,
            LoadErrorView::ShortRow => "too few fields in a row"@,
            LoadErrorView::BadJson => "key is not JSON"@,
            LoadErrorView::BadKey => "key is not a call"@,
            LoadErrorView::BadNumber => "invalid number"@,
            LoadErrorView::BadFlag => "invalid flag"@,
            LoadErrorView::UnknownKind(kind) => "unknown memcpy kind: "@ + kind,
        }
    }
}

impl LoadError {
    /// The error in words.
    pub fn text(&self) -> (s: String)
        ensures
            s@ == self@.text(),
    {
        match self {
            LoadError::Csv => "malformed CSV row".to_string(),
            LoadError::ShortRow => "too few fields in a row".to_string(),
            LoadError::BadJson => "key is not JSON".to_string(),
            LoadError::BadKey => "key is not a call".to_string(),
            LoadError::BadNumber => "invalid number".to_string(),
            LoadError::BadFlag => "invalid flag".to_string(),
            LoadError::UnknownKind(kind) => {
                let mut s = "unknown memcpy kind: ".to_string();
                push_text(&mut s, kind.as_str());
                s
            },
        }
    }
}

/// What was read of a row, or why it cannot be read.
pub open spec fn told<T>(v: Result<T, LoadError>) -> Result<T, LoadErrorView> {
    match v {
        Ok(x) => Ok(x),
        Err(e) => Err(e@),
    }
}

/// The name of a kind of copy.
pub open spec fn memcpy_kind_text(kind: CudaMemcpyKind) -> Seq<char> {
    match kind {
        CudaMemcpyKind::HostToHost => "HostToHost"@,
        CudaMemcpyKind::HostToDevice => "HostToDevice"@,
        CudaMemcpyKind::PinnedHostToDevice => "PinnedHostToDevice"@,
        CudaMemcpyKind::DeviceToHost => "DeviceToHost"@,
        CudaMemcpyKind::DeviceToPinnedHost => "DeviceToPinnedHost"@,
        CudaMemcpyKind::DeviceToDevice => "DeviceToDevice"@,
    }
}

/// The kind of copy that has a name.
pub open spec fn memcpy_kind_of(s: Seq<char>) -> Option<CudaMemcpyKind> {
    if s == "HostToHost"@ {
        Some(CudaMemcpyKind::HostToHost)
    } else if s == "HostToDevice"@ {
        Some(CudaMemcpyKind::HostToDevice)
    } else if s == "PinnedHostToDevice"@ {
        Some(CudaMemcpyKind::PinnedHostToDevice)
    } else if s == "DeviceToHost"@ {
        Some(CudaMemcpyKind::DeviceToHost)
    } else if s == "DeviceToPinnedHost"@ {
        Some(CudaMemcpyKind::DeviceToPinnedHost)
    } else if s == "DeviceToDevice"@ {
        Some(CudaMemcpyKind::DeviceToDevice)
    } else {
        None
    }
}

/// The name of a kind of copy.
pub fn memcpy_kind_str(kind: CudaMemcpyKind) -> (s: &'static str)
    ensures
        s@ == memcpy_kind_text(kind),
{
    match kind {
        CudaMemcpyKind::HostToHost => "HostToHost",
        CudaMemcpyKind::HostToDevice => "HostToDevice",
        CudaMemcpyKind::PinnedHostToDevice => "PinnedHostToDevice",
        CudaMemcpyKind::DeviceToHost => "DeviceToHost",
        CudaMemcpyKind::DeviceToPinnedHost => "DeviceToPinnedHost",
        CudaMemcpyKind::DeviceToDevice => "DeviceToDevice",
    }
}

/// The kind of copy that has a name.
pub fn memcpy_kind_from_str(s: &str) -> (r: Option<CudaMemcpyKind>)
    ensures
        r == memcpy_kind_of(s@),
{
    if same_text(s, "HostToHost") {
        Some(CudaMemcpyKind::HostToHost)
    } else if same_text(s, "HostToDevice") {
        Some(CudaMemcpyKind::HostToDevice)
    } else if same_text(s, "PinnedHostToDevice") {
        Some(CudaMemcpyKind::PinnedHostToDevice)
    } else if same_text(s, "DeviceToHost") {
        Some(CudaMemcpyKind::DeviceToHost)
    } else if same_text(s, "DeviceToPinnedHost") {
        Some(CudaMemcpyKind::DeviceToPinnedHost)
    } else if same_text(s, "DeviceToDevice") {
        Some(CudaMemcpyKind::DeviceToDevice)
    } else {
        None
    }
}

/// Each kind of copy is found by its name.
pub proof fn law_memcpy_kind_names(kind: CudaMemcpyKind)
    ensures
        memcpy_kind_of(memcpy_kind_text(kind)) == Some(kind),
{
    reveal_strlit("HostToHost");
    reveal_strlit("HostToDevice");
    reveal_strlit("PinnedHostToDevice");
    reveal_strlit("DeviceToHost");
    reveal_strlit("DeviceToPinnedHost");
    reveal_strlit("DeviceToDevice");
    assert("HostToHost"@.len() == 10);
    assert("HostToDevice"@.len() == 12 && "HostToDevice"@[0] == 'H');
    assert("DeviceToHost"@.len() == 12 && "DeviceToHost"@[0] == 'D');
    assert("PinnedHostToDevice"@.len() == 18 && "PinnedHostToDevice"@[0] == 'P');
    assert("DeviceToPinnedHost"@.len() == 18 && "DeviceToPinnedHost"@[0] == 'D');
    assert("DeviceToDevice"@.len() == 14);
}

/// The text under which a call is recorded.
pub open spec fn key_text(c: CallView) -> Seq<char> {
    tree_text(key_sorted(compacted(call_json(c))))
}

/// The call that is recorded under a text.
pub open spec fn key_call(s: Seq<char>) -> Result<CallView, LoadErrorView> {
    match text_tree(s) {
        None => Err(LoadErrorView::BadJson),
        Some(t) => match json_call(expanded(t)) {
            None => Err(LoadErrorView::BadKey),
            Some(c) => Ok(c),
        },
    }
}

/// The text under which a call is recorded.
pub fn write_key(c: &TorchCallInfo) -> (s: String)
    requires
        valid_call(c@),
    ensures
        s@ == key_text(c@),
        key_call(s@) == Ok::<CallView, LoadErrorView>(c@),
{
    proof {
        lemma_key_shape(c@);
        law_call_read_back(c@);
    }
    json_text(sort_object_keys(compact_value(call_value(c))))
}

/// The call that is recorded under a text.
pub fn read_key(s: &str) -> (r: Result<TorchCallInfo, LoadError>)
    ensures
        match r {
            Ok(c) => key_call(s@) == Ok::<CallView, LoadErrorView>(c@) && valid_call(c@),
            Err(e) => key_call(s@) == Err::<CallView, LoadErrorView>(e@),
        },
{
    match parse_json(s) {
        None => Err(LoadError::BadJson),
        Some(j) => {
            let full = expand_value(j);
            match read_call(&full) {
                None => Err(LoadError::BadKey),
                Some(c) => {
                    proof {
                        law_read_call_well_typed(full@);
                        lemma_held_call(c);
                    }
                    Ok(c)
                },
            }
        },
    }
}

/// The number in a field.
pub open spec fn number_at(r: Record, i: int, max: nat) -> Result<nat, LoadErrorView> {
    if i >= r.len() {
        Err(LoadErrorView::ShortRow)
    } else {
        match unsigned_value(r[i], max) {
            Some(n) => Ok(n),
            None => Err(LoadErrorView::BadNumber),
        }
    }
}

/// The time in a field.
pub open spec fn nanos_at(r: Record, i: int) -> Result<Duration, LoadErrorView> {
    match number_at(r, i, u64::MAX as nat) {
        Ok(n) => Ok(Duration { nanos: n as u64 }),
        Err(e) => Err(e),
    }
}

/// The signed number in a field.
pub open spec fn i32_at(r: Record, i: int) -> Result<i32, LoadErrorView> {
    if i >= r.len() {
        Err(LoadErrorView::ShortRow)
    } else {
        match i32_value(r[i]) {
            Some(n) => Ok(n),
            None => Err(LoadErrorView::BadNumber),
        }
    }
}

/// The flag in a field.
pub open spec fn flag_at(r: Record, i: int) -> Result<bool, LoadErrorView> {
    if i >= r.len() {
        Err(LoadErrorView::ShortRow)
    } else {
        match bool_value(r[i]) {
            Some(b) => Ok(b),
            None => Err(LoadErrorView::BadFlag),
        }
    }
}

fn read_number(r: &Vec<String>, i: usize, max: u64) -> (v: Result<u64, LoadError>)
    ensures
        match v {
            Ok(n) => number_at(record(r@), i as int, max as nat) == Ok::<nat, LoadErrorView>(
                n as nat,
            ),
            Err(e) => number_at(record(r@), i as int, max as nat) == Err::<nat, LoadErrorView>(e@),
        },
{
    if i >= r.len() {
        return Err(LoadError::ShortRow);
    }
    match parse_unsigned(r[i].as_str(), max) {
        Some(n) => Ok(n),
        None => Err(LoadError::BadNumber),
    }
}

fn read_nanos(r: &Vec<String>, i: usize) -> (v: Result<Duration, LoadError>)
    ensures
        told(v) == nanos_at(record(r@), i as int),
{
    match read_number(r, i, u64::MAX) {
        Ok(n) => Ok(Duration::from_nanos(n)),
        Err(e) => Err(e),
    }
}

fn read_i32(r: &Vec<String>, i: usize) -> (v: Result<i32, LoadError>)
    ensures
        told(v) == i32_at(record(r@), i as int),
{
    if i >= r.len() {
        return Err(LoadError::ShortRow);
    }
    match parse_i32(r[i].as_str()) {
        Some(n) => Ok(n),
        None => Err(LoadError::BadNumber),
    }
}

fn read_flag(r: &Vec<String>, i: usize) -> (v: Result<bool, LoadError>)
    ensures
        told(v) == flag_at(record(r@), i as int),
{
    if i >= r.len() {
        return Err(LoadError::ShortRow);
    }
    match parse_flag(r[i].as_str()) {
        Some(b) => Ok(b),
        None => Err(LoadError::BadFlag),
    }
}

/// A recorded call and its time. A row has the key and the time; a row of three fields
/// has the operator before them.
pub open spec fn compute_row(r: Record) -> Result<(CallView, Duration), LoadErrorView> {
    let at: int = if r.len() >= 3 {
        1
    } else {
        0
    };
    if r.len() < 2 {
        Err(LoadErrorView::ShortRow)
    } else {
        match key_call(r[at]) {
            Err(e) => Err(e),
            Ok(c) => match nanos_at(r, at + 1) {
                Err(e) => Err(e),
                Ok(d) => Ok((c, d)),
            },
        }
    }
}

/// Reads a recorded call and its time.
pub fn read_compute_row(r: &Vec<String>) -> (v: Result<(TorchCallInfo, Duration), LoadError>)
    ensures
        match v {
            Ok((c, d)) => compute_row(record(r@)) == Ok::<(CallView, Duration), LoadErrorView>(
                (c@, d),
            ) && valid_call(c@),
            Err(e) => compute_row(record(r@)) == Err::<(CallView, Duration), LoadErrorView>(e@),
        },
{
    if r.len() < 2 {
        return Err(LoadError::ShortRow);
    }
    let at: usize = if r.len() >= 3 {
        1
    } else {
        0
    };
    match read_key(r[at].as_str()) {
        Err(e) => Err(e),
        Ok(c) => match read_nanos(r, at + 1) {
            Err(e) => Err(e),
            Ok(d) => Ok((c, d)),
        },
    }
}

/// A recorded copy and its time.
pub open spec fn memcpy_row(r: Record) -> Result<((CudaMemcpyKind, usize), Duration), LoadErrorView> {
    if r.len() < 1 {
        Err(LoadErrorView::ShortRow)
    } else {
        match memcpy_kind_of(r[0]) {
            None => Err(LoadErrorView::UnknownKind(r[0])),
            Some(kind) => match number_at(r, 1, usize::MAX as nat) {
                Err(e) => Err(e),
                Ok(size) => match nanos_at(r, 2) {
                    Err(e) => Err(e),
                    Ok(d) => Ok(((kind, size as usize), d)),
                },
            },
        }
    }
}

/// Reads a recorded copy and its time.
pub fn read_memcpy_row(r: &Vec<String>) -> (v: Result<
    ((CudaMemcpyKind, usize), Duration),
    LoadError,
>)
    ensures
        told(v) == memcpy_row(record(r@)),
{
    if r.len() < 1 {
        return Err(LoadError::ShortRow);
    }
    match memcpy_kind_from_str(r[0].as_str()) {
        None => Err(LoadError::UnknownKind(r[0].clone())),
        Some(kind) => match read_number(r, 1, usize::MAX as u64) {
            Err(e) => Err(e),
            Ok(size) => match read_nanos(r, 2) {
                Err(e) => Err(e),
                Ok(d) => Ok(((kind, size as usize), d)),
            },
        },
    }
}

/// The first `n` signed numbers from a field on.
pub open spec fn i32s_at(r: Record, i: int, n: int) -> Result<Seq<i32>, LoadErrorView>
    decreases n,
{
    if n <= 0 {
        Ok(seq![])
    } else {
        match i32s_at(r, i, n - 1) {
            Err(e) => Err(e),
            Ok(l) => match i32_at(r, i + n - 1) {
                Err(e) => Err(e),
                Ok(x) => Ok(l.push(x)),
            },
        }
    }
}

/// A recorded flash-attention kernel and its time.
pub open spec fn flash_row(r: Record) -> Result<(FlashAttnKey, Duration), LoadErrorView> {
    match flag_at(r, 0) {
        Err(e) => Err(e),
        Ok(is_fwd) => match flag_at(r, 1) {
            Err(e) => Err(e),
            Ok(is_bf16) => match i32s_at(r, 2, 8) {
                Err(e) => Err(e),
                Ok(l) => match flag_at(r, 10) {
                    Err(e) => Err(e),
                    Ok(is_causal) => match nanos_at(r, 11) {
                        Err(e) => Err(e),
                        Ok(d) => Ok(
                            (
                                FlashAttnKey {
                                    is_fwd,
                                    is_bf16,
                                    batch_size: l[0],
                                    seqlen_q: l[1],
                                    seqlen_k: l[2],
                                    num_heads: l[3],
                                    num_heads_k: l[4],
                                    head_size: l[5],
                                    window_size_left: l[6],
                                    window_size_right: l[7],
                                    is_causal,
                                },
                                d,
                            ),
                        ),
                    },
                },
            },
        },
    }
}

proof fn lemma_i32s_stuck(r: Record, i: int, n: int, end: int)
    requires
        n <= end,
        i32s_at(r, i, n) is Err,
    ensures
        i32s_at(r, i, end) == i32s_at(r, i, n),
    decreases end - n,
{
    if n < end && n >= 0 {
        assert(i32s_at(r, i, n + 1) == i32s_at(r, i, n));
        lemma_i32s_stuck(r, i, n + 1, end);
    }
}

fn read_i32s(r: &Vec<String>, i: usize, n: usize) -> (v: Result<Vec<i32>, LoadError>)
    requires
        i + n <= usize::MAX,
    ensures
        match v {
            Ok(l) => i32s_at(record(r@), i as int, n as int) == Ok::<Seq<i32>, LoadErrorView>(l@)
                && l@.len() == n,
            Err(e) => i32s_at(record(r@), i as int, n as int) == Err::<Seq<i32>, LoadErrorView>(e@),
        },
{
    let mut out: Vec<i32> = Vec::new();
    let mut k: usize = 0;
    while k < n
        invariant
            k <= n,
            i + n <= usize::MAX,
            out@.len() == k,
            i32s_at(record(r@), i as int, k as int) == Ok::<Seq<i32>, LoadErrorView>(out@),
        decreases n - k,
    {
        match read_i32(r, i + k) {
            Ok(x) => out.push(x),
            Err(e) => {
                proof {
                    lemma_i32s_stuck(record(r@), i as int, k + 1, n as int);
                }
                return Err(e);
            },
        }
        k += 1;
    }
    Ok(out)
}

/// Reads a recorded flash-attention kernel and its time.
pub fn read_flash_row(r: &Vec<String>) -> (v: Result<(FlashAttnKey, Duration), LoadError>)
    ensures
        told(v) == flash_row(record(r@)),
{
    let is_fwd = match read_flag(r, 0) {
        Ok(b) => b,
        Err(e) => {
            return Err(e);
        },
    };
    let is_bf16 = match read_flag(r, 1) {
        Ok(b) => b,
        Err(e) => {
            return Err(e);
        },
    };
    let l = match read_i32s(r, 2, 8) {
        Ok(l) => l,
        Err(e) => {
            return Err(e);
        },
    };
    let is_causal = match read_flag(r, 10) {
        Ok(b) => b,
        Err(e) => {
            return Err(e);
        },
    };
    let d = match read_nanos(r, 11) {
        Ok(d) => d,
        Err(e) => {
            return Err(e);
        },
    };
    Ok(
        (
            FlashAttnKey {
                is_fwd,
                is_bf16,
                batch_size: l[0],
                seqlen_q: l[1],
                seqlen_k: l[2],
                num_heads: l[3],
                num_heads_k: l[4],
                head_size: l[5],
                window_size_left: l[6],
                window_size_right: l[7],
                is_causal,
            },
            d,
        ),
    )
}

/// The times in the parts of a text, empty parts left out.
pub open spec fn part_times(parts: Seq<Seq<char>>) -> Option<Seq<Duration>>
    decreases parts.len(),
{
    if parts.len() == 0 {
        Some(seq![])
    } else {
        match part_times(parts.drop_last()) {
            None => None,
            Some(l) => if parts.last().len() == 0 {
                Some(l)
            } else {
                match unsigned_value(parts.last(), u64::MAX as nat) {
                    Some(n) => Some(l.push(Duration { nanos: n as u64 })),
                    None => None,
                }
            },
        }
    }
}

/// A recorded run of calls, by its hash, and the times of its calls.
pub open spec fn sequence_row(r: Record) -> Result<(u64, Seq<Duration>), LoadErrorView> {
    match number_at(r, 0, u64::MAX as nat) {
        Err(e) => Err(e),
        Ok(hash) => if r.len() < 2 {
            Err(LoadErrorView::ShortRow)
        } else {
            match part_times(split_text(r[1], ';')) {
                Some(l) => Ok((hash as u64, l)),
                None => Err(LoadErrorView::BadNumber),
            }
        },
    }
}

proof fn lemma_parts_stuck(parts: Seq<Seq<char>>, n: int)
    requires
        0 <= n <= parts.len(),
        part_times(parts.take(n)) is None,
    ensures
        part_times(parts) is None,
    decreases parts.len() - n,
{
    if n < parts.len() {
        assert(parts.take(n + 1).drop_last() =~= parts.take(n));
        lemma_parts_stuck(parts, n + 1);
    } else {
        assert(parts.take(n) =~= parts);
    }
}

/// Reads a recorded run of calls and its times.
pub fn read_sequence_row(r: &Vec<String>) -> (v: Result<(u64, Vec<Duration>), LoadError>)
    ensures
        match v {
            Ok((h, l)) => sequence_row(record(r@)) == Ok::<(u64, Seq<Duration>), LoadErrorView>(
                (h, l@),
            ),
            Err(e) => sequence_row(record(r@)) == Err::<(u64, Seq<Duration>), LoadErrorView>(e@),
        },
{
    let hash = match read_number(r, 0, u64::MAX) {
        Ok(h) => h,
        Err(e) => {
            return Err(e);
        },
    };
    if r.len() < 2 {
        return Err(LoadError::ShortRow);
    }
    let parts = split_str(r[1].as_str(), ';');
    let ghost all = texts(parts@);
    let mut out: Vec<Duration> = Vec::new();
    let mut i: usize = 0;
    assert(all.take(0) =~= seq![]);
    while i < parts.len()
        invariant
            i <= parts@.len(),
            all == texts(parts@),
            r@.len() >= 2,
            all == split_text(record(r@)[1], ';'),
            number_at(record(r@), 0, u64::MAX as nat) == Ok::<nat, LoadErrorView>(hash as nat),
            part_times(all.take(i as int)) == Some(out@),
        decreases parts@.len() - i,
    {
        assert(all.take(i + 1).drop_last() =~= all.take(i as int));
        assert(all.take(i + 1).last() == parts@[i as int]@);
        if !same_text(parts[i].as_str(), "") {
            proof {
                reveal_strlit("");
                if all[i as int].len() == 0 {
                    assert(all[i as int] =~= ""@);
                }
            }
            match parse_unsigned(parts[i].as_str(), u64::MAX) {
                Some(n) => out.push(Duration::from_nanos(n)),
                None => {
                    proof {
                        lemma_parts_stuck(all, i + 1);
                    }
                    return Err(LoadError::BadNumber);
                },
            }
        } else {
            proof {
                reveal_strlit("");
            }
        }
        i += 1;
    }
    assert(all.take(all.len() as int) =~= all);
    Ok((hash, out))
}

/// A row of the table of calls.
pub struct ComputeRow {
    pub key: String,
    pub nanos: u64,
}

impl View for ComputeRow {
    type V = (Seq<char>, u64);

    open spec fn view(&self) -> (Seq<char>, u64) {
        (self.key@, self.nanos)
    }
}

impl Ranked for ComputeRow {
    open spec fn ranked(a: (Seq<char>, u64), b: (Seq<char>, u64)) -> bool {
        if a.0 == b.0 {
            a.1 <= b.1
        } else {
            text_le(a.0, b.0)
        }
    }

    fn not_after(&self, other: &Self) -> (b: bool) {
        if same_text(self.key.as_str(), other.key.as_str()) {
            self.nanos <= other.nanos
        } else {
            text_not_after(self.key.as_str(), other.key.as_str())
        }
    }
}

/// A row of the table of copies.
#[derive(Clone, Copy)]
pub struct MemcpyRow {
    pub kind: CudaMemcpyKind,
    pub size: usize,
    pub nanos: u64,
}

impl View for MemcpyRow {
    type V = MemcpyRow;

    open spec fn view(&self) -> MemcpyRow {
        *self
    }
}

impl Ranked for MemcpyRow {
    open spec fn ranked(a: MemcpyRow, b: MemcpyRow) -> bool {
        if a.kind != b.kind {
            text_le(memcpy_kind_text(a.kind), memcpy_kind_text(b.kind))
        } else if a.size != b.size {
            a.size < b.size
        } else {
            a.nanos <= b.nanos
        }
    }

    fn not_after(&self, other: &Self) -> (b: bool) {
        if self.kind != other.kind {
            text_not_after(memcpy_kind_str(self.kind), memcpy_kind_str(other.kind))
        } else if self.size != other.size {
            self.size < other.size
        } else {
            self.nanos <= other.nanos
        }
    }
}

/// A row of the table of flash-attention kernels.
#[derive(Clone, Copy)]
pub struct FlashRow {
    pub key: FlashAttnKey,
    pub nanos: u64,
}

impl View for FlashRow {
    type V = FlashRow;

    open spec fn view(&self) -> FlashRow {
        *self
    }
}

impl Ranked for FlashRow {
    open spec fn ranked(a: FlashRow, b: FlashRow) -> bool {
        let x = a.key;
        let y = b.key;
        if x.is_fwd != y.is_fwd {
            !x.is_fwd
        } else if x.batch_size != y.batch_size {
            x.batch_size < y.batch_size
        } else if x.seqlen_q != y.seqlen_q {
            x.seqlen_q < y.seqlen_q
        } else if x.seqlen_k != y.seqlen_k {
            x.seqlen_k < y.seqlen_k
        } else if x.num_heads != y.num_heads {
            x.num_heads < y.num_heads
        } else {
            x.head_size <= y.head_size
        }
    }

    fn not_after(&self, other: &Self) -> (b: bool) {
        let x = self.key;
        let y = other.key;
        if x.is_fwd != y.is_fwd {
            !x.is_fwd
        } else if x.batch_size != y.batch_size {
            x.batch_size < y.batch_size
        } else if x.seqlen_q != y.seqlen_q {
            x.seqlen_q < y.seqlen_q
        } else if x.seqlen_k != y.seqlen_k {
            x.seqlen_k < y.seqlen_k
        } else if x.num_heads != y.num_heads {
            x.num_heads < y.num_heads
        } else {
            x.head_size <= y.head_size
        }
    }
}

/// A row of the table of runs of calls.
pub struct SequenceRow {
    pub hash: u64,
    pub times: Vec<Duration>,
}

impl View for SequenceRow {
    type V = (u64, Seq<Duration>);

    open spec fn view(&self) -> (u64, Seq<Duration>) {
        (self.hash, self.times@)
    }
}

impl Ranked for SequenceRow {
    open spec fn ranked(a: (u64, Seq<Duration>), b: (u64, Seq<Duration>)) -> bool {
        a.0 <= b.0
    }

    fn not_after(&self, other: &Self) -> (b: bool) {
        self.hash <= other.hash
    }
}

/// The fields of a row of the table of calls.
pub open spec fn compute_fields(row: (Seq<char>, u64)) -> Record {
    seq![row.0, decimal(row.1 as nat)]
}

/// The fields of a row of the table of copies.
pub open spec fn memcpy_fields(row: MemcpyRow) -> Record {
    seq![memcpy_kind_text(row.kind), decimal(row.size as nat), decimal(row.nanos as nat)]
}

/// The fields of a row of the table of flash-attention kernels.
pub open spec fn flash_fields(row: FlashRow) -> Record {
    seq![
        bool_text(row.key.is_fwd),
        bool_text(row.key.is_bf16),
        signed_decimal(row.key.batch_size as int),
        signed_decimal(row.key.seqlen_q as int),
        signed_decimal(row.key.seqlen_k as int),
        signed_decimal(row.key.num_heads as int),
        signed_decimal(row.key.num_heads_k as int),
        signed_decimal(row.key.head_size as int),
        signed_decimal(row.key.window_size_left as int),
        signed_decimal(row.key.window_size_right as int),
        bool_text(row.key.is_causal),
        decimal(row.nanos as nat),
    ]
}

/// Some times in decimal digits.
pub open spec fn times_texts(times: Seq<Duration>) -> Seq<Seq<char>> {
    times.map_values(|d: Duration| decimal(d.nanos as nat))
}

/// The fields of a row of the table of runs of calls.
pub open spec fn sequence_fields(row: (u64, Seq<Duration>)) -> Record {
    seq![decimal(row.0 as nat), joined(times_texts(row.1), ';')]
}

/// Writes a row of the table of calls.
pub fn write_compute_row(row: ComputeRow) -> (r: Vec<String>)
    ensures
        record(r@) == compute_fields(row@),
{
    let ghost fields = compute_fields(row@);
    let mut r: Vec<String> = Vec::new();
    r.push(row.key);
    r.push(unsigned_text(row.nanos));
    assert(record(r@) =~= fields);
    r
}

/// Writes a row of the table of copies.
pub fn write_memcpy_row(row: MemcpyRow) -> (r: Vec<String>)
    ensures
        record(r@) == memcpy_fields(row),
{
    let mut r: Vec<String> = Vec::new();
    r.push(memcpy_kind_str(row.kind).to_owned());
    r.push(unsigned_text(row.size as u64));
    r.push(unsigned_text(row.nanos));
    assert(record(r@) =~= memcpy_fields(row));
    r
}

/// Writes a row of the table of flash-attention kernels.
pub fn write_flash_row(row: FlashRow) -> (r: Vec<String>)
    ensures
        record(r@) == flash_fields(row),
{
    let mut r: Vec<String> = Vec::new();
    r.push(flag_text(row.key.is_fwd));
    r.push(flag_text(row.key.is_bf16));
    r.push(signed_text(row.key.batch_size));
    r.push(signed_text(row.key.seqlen_q));
    r.push(signed_text(row.key.seqlen_k));
    r.push(signed_text(row.key.num_heads));
    r.push(signed_text(row.key.num_heads_k));
    r.push(signed_text(row.key.head_size));
    r.push(signed_text(row.key.window_size_left));
    r.push(signed_text(row.key.window_size_right));
    r.push(flag_text(row.key.is_causal));
    r.push(unsigned_text(row.nanos));
    assert(record(r@) =~= flash_fields(row));
    r
}

/// Writes a row of the table of runs of calls.
pub fn write_sequence_row(row: SequenceRow) -> (r: Vec<String>)
    ensures
        record(r@) == sequence_fields(row@),
{
    let ghost all = times_texts(row.times@);
    let mut parts: Vec<String> = Vec::new();
    let mut i: usize = 0;
    assert(texts(parts@) =~= all.take(0));
    while i < row.times.len()
        invariant
            i <= row.times@.len(),
            all == times_texts(row.times@),
            texts(parts@) == all.take(i as int),
        decreases row.times@.len() - i,
    {
        let ghost prev = parts@;
        parts.push(unsigned_text(row.times[i].as_nanos()));
        assert(texts(parts@) =~= texts(prev).push(all[i as int]));
        assert(texts(parts@) =~= all.take(i + 1));
        i += 1;
    }
    assert(texts(parts@) =~= all);
    let mut r: Vec<String> = Vec::new();
    r.push(unsigned_text(row.hash));
    r.push(join_texts(&parts, ';'));
    assert(record(r@) =~= sequence_fields(row@));
    r
}

/// A row of the table of calls is read back.
pub proof fn law_compute_row_read_back(key: Seq<char>, nanos: u64, call: CallView)
    requires
        key_call(key) == Ok::<CallView, LoadErrorView>(call),
    ensures
        compute_row(compute_fields((key, nanos))) == Ok::<(CallView, Duration), LoadErrorView>(
            (call, Duration { nanos }),
        ),
{
    lemma_unsigned_round_trip(nanos as nat, u64::MAX as nat);
}

/// A row of the table of copies is read back.
pub proof fn law_memcpy_row_read_back(row: MemcpyRow)
    ensures
        memcpy_row(memcpy_fields(row)) == Ok::<((CudaMemcpyKind, usize), Duration), LoadErrorView>(
            ((row.kind, row.size), Duration { nanos: row.nanos }),
        ),
{
    law_memcpy_kind_names(row.kind);
    lemma_unsigned_round_trip(row.size as nat, usize::MAX as nat);
    lemma_unsigned_round_trip(row.nanos as nat, u64::MAX as nat);
}

/// A row of the table of flash-attention kernels is read back.
pub proof fn law_flash_row_read_back(row: FlashRow)
    ensures
        flash_row(flash_fields(row)) == Ok::<(FlashAttnKey, Duration), LoadErrorView>(
            (row.key, Duration { nanos: row.nanos }),
        ),
{
    lemma_bool_round_trip(row.key.is_fwd);
    lemma_bool_round_trip(row.key.is_bf16);
    lemma_bool_round_trip(row.key.is_causal);
    lemma_i32_round_trip(row.key.batch_size);
    lemma_i32_round_trip(row.key.seqlen_q);
    lemma_i32_round_trip(row.key.seqlen_k);
    lemma_i32_round_trip(row.key.num_heads);
    lemma_i32_round_trip(row.key.num_heads_k);
    lemma_i32_round_trip(row.key.head_size);
    lemma_i32_round_trip(row.key.window_size_left);
    lemma_i32_round_trip(row.key.window_size_right);
    lemma_unsigned_round_trip(row.nanos as nat, u64::MAX as nat);
    reveal_with_fuel(i32s_at, 9);
}

proof fn lemma_times_back(times: Seq<Duration>)
    ensures
        part_times(times_texts(times)) == Some(times),
        forall|i: int|
            0 <= i < times.len() ==> free_of(#[trigger] times_texts(times)[i], ';'),
    decreases times.len(),
{
    let all = times_texts(times);
    if times.len() > 0 {
        let front = times.drop_last();
        lemma_times_back(front);
        assert(all.drop_last() =~= times_texts(front));
        lemma_unsigned_round_trip(times.last().nanos as nat, u64::MAX as nat);
        lemma_decimal(times.last().nanos as nat);
        assert(all.last() == decimal(times.last().nanos as nat));
        assert(front.push(times.last()) =~= times);
    } else {
        assert(times =~= seq![]);
    }
    assert forall|i: int| 0 <= i < times.len() implies free_of(#[trigger] all[i], ';') by {
        lemma_decimal(times[i].nanos as nat);
        assert(all[i] == decimal(times[i].nanos as nat));
        assert forall|k: int| 0 <= k < all[i].len() implies #[trigger] all[i][k] != ';' by {
            assert(crate::text::is_digit(decimal(times[i].nanos as nat)[k]));
        }
    }
}

/// A row of the table of runs of calls is read back.
pub proof fn law_sequence_row_read_back(hash: u64, times: Seq<Duration>)
    ensures
        sequence_row(sequence_fields((hash, times))) == Ok::<(u64, Seq<Duration>), LoadErrorView>(
            (hash, times),
        ),
{
    lemma_unsigned_round_trip(hash as nat, u64::MAX as nat);
    let all = times_texts(times);
    lemma_times_back(times);
    if times.len() == 0 {
        let none = Seq::<char>::empty();
        assert(all =~= seq![]);
        assert(joined(all, ';') =~= none);
        let parts = split_text(none, ';');
        assert(parts == seq![none]);
        assert(parts.drop_last() =~= seq![]);
        assert(parts.last() == none);
        assert(part_times(parts) == Some(Seq::<Duration>::empty()));
        assert(times =~= seq![]);
    } else {
        lemma_joined_split(all, ';');
    }
}

/// The rows of the table of calls have a total order.
pub proof fn law_compute_rows_ordered()
    ensures
        forall|x: (Seq<char>, u64), y: (Seq<char>, u64)|
            ComputeRow::ranked(x, y) || ComputeRow::ranked(y, x),
        forall|x: (Seq<char>, u64), y: (Seq<char>, u64), z: (Seq<char>, u64)|
            ComputeRow::ranked(x, y) && ComputeRow::ranked(y, z) ==> ComputeRow::ranked(x, z),
        forall|x: (Seq<char>, u64), y: (Seq<char>, u64)|
            ComputeRow::ranked(x, y) && ComputeRow::ranked(y, x) ==> x == y,
{
    assert forall|x: (Seq<char>, u64), y: (Seq<char>, u64)|
        ComputeRow::ranked(x, y) || ComputeRow::ranked(y, x) by {
        lemma_text_order(x.0, y.0);
    }
    assert forall|x: (Seq<char>, u64), y: (Seq<char>, u64), z: (Seq<char>, u64)|
        ComputeRow::ranked(x, y) && ComputeRow::ranked(y, z) implies ComputeRow::ranked(x, z) by {
        lemma_text_order(x.0, y.0);
        lemma_text_order(y.0, z.0);
        lemma_text_order(x.0, z.0);
        if x.0 != y.0 && y.0 != z.0 {
            lemma_text_transitive(x.0, y.0, z.0);
        }
    }
    assert forall|x: (Seq<char>, u64), y: (Seq<char>, u64)|
        ComputeRow::ranked(x, y) && ComputeRow::ranked(y, x) implies x == y by {
        lemma_text_order(x.0, y.0);
    }
}

/// The rows of the table of copies have a total order.
pub proof fn law_memcpy_rows_ordered()
    ensures
        forall|x: MemcpyRow, y: MemcpyRow| MemcpyRow::ranked(x, y) || MemcpyRow::ranked(y, x),
        forall|x: MemcpyRow, y: MemcpyRow, z: MemcpyRow|
            MemcpyRow::ranked(x, y) && MemcpyRow::ranked(y, z) ==> MemcpyRow::ranked(x, z),
        forall|x: MemcpyRow, y: MemcpyRow|
            MemcpyRow::ranked(x, y) && MemcpyRow::ranked(y, x) ==> x == y,
{
    assert forall|x: MemcpyRow, y: MemcpyRow|
        MemcpyRow::ranked(x, y) || MemcpyRow::ranked(y, x) by {
        lemma_text_order(memcpy_kind_text(x.kind), memcpy_kind_text(y.kind));
    }
    assert forall|x: MemcpyRow, y: MemcpyRow, z: MemcpyRow|
        MemcpyRow::ranked(x, y) && MemcpyRow::ranked(y, z) implies MemcpyRow::ranked(x, z) by {
        lemma_kinds_apart(x.kind, y.kind);
        lemma_kinds_apart(x.kind, z.kind);
        if x.kind != y.kind && y.kind != z.kind {
            lemma_text_transitive(
                memcpy_kind_text(x.kind),
                memcpy_kind_text(y.kind),
                memcpy_kind_text(z.kind),
            );
        }
    }
    assert forall|x: MemcpyRow, y: MemcpyRow|
        MemcpyRow::ranked(x, y) && MemcpyRow::ranked(y, x) implies x == y by {
        lemma_kinds_apart(x.kind, y.kind);
    }
}

proof fn lemma_kinds_apart(a: CudaMemcpyKind, b: CudaMemcpyKind)
    ensures
        text_le(memcpy_kind_text(a), memcpy_kind_text(b)) && text_le(
            memcpy_kind_text(b),
            memcpy_kind_text(a),
        ) ==> a == b,
{
    lemma_text_order(memcpy_kind_text(a), memcpy_kind_text(b));
    law_memcpy_kind_names(a);
    law_memcpy_kind_names(b);
}

} // verus!
