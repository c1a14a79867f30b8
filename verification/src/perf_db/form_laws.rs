//! What recorded tables look like: which column holds what, in which order rows stand, what
//! a row has to be to be read, and how calls are written short.

use crate::cuda_call::CudaMemcpyKind;
use crate::duration::Duration;
use crate::json::{JsonNumber, JsonTree};
use crate::lines::split_text;
use crate::perf_db::call_json::{arg_json, body_json, call_json, fields_json};
use crate::perf_db::codec::{
    code_of, compacted, compacted_items, full_tensor, period_from, same_tree, short_array,
    short_list,
};
use crate::perf_db::csv_io::{csv_bytes, csv_rows, Record};
use crate::perf_db::manifest::{manifest_gpu, manifest_lines};
use crate::perf_db::rows::{
    compute_fields, compute_row, flash_fields, flash_row, i32s_at, key_call, key_text,
    memcpy_fields, memcpy_kind_of, memcpy_kind_text, memcpy_row, part_times, sequence_fields,
    sequence_row, ComputeRow, FlashRow, LoadErrorView, MemcpyRow, SequenceRow,
};
use crate::perf_db::{
    compute_header, compute_rows, flash_header, flash_rows, loaded, memcpy_header, memcpy_rows,
    sequence_header, sequence_rows, table_in, table_of, table_records, unless_empty, DbView,
    FilesView, FlashAttnKey,
};
use crate::sort::{in_order, law_sort_keeps_items, law_sort_orders, sorted, Ranked};
use crate::text::{
    bool_text, bool_value, decimal, i32_value, signed_decimal, text_le, unsigned_value,
};
use crate::torch_call::{ArgView, CallView};
use vstd::prelude::*;

verus! {

/// The columns of the table of kernels, with what a row holds in each.
pub open spec fn flash_columns(row: FlashRow) -> Seq<(Seq<char>, Seq<char>)> {
    seq![
        ("is_fwd"@, bool_text(row.key.is_fwd)),
        ("is_bf16"@, bool_text(row.key.is_bf16)),
        ("batch"@, signed_decimal(row.key.batch_size as int)),
        ("seqlen_q"@, signed_decimal(row.key.seqlen_q as int)),
        ("seqlen_k"@, signed_decimal(row.key.seqlen_k as int)),
        ("num_heads"@, signed_decimal(row.key.num_heads as int)),
        ("num_heads_k"@, signed_decimal(row.key.num_heads_k as int)),
        ("head_size"@, signed_decimal(row.key.head_size as int)),
        ("win_left"@, signed_decimal(row.key.window_size_left as int)),
        ("win_right"@, signed_decimal(row.key.window_size_right as int)),
        ("is_causal"@, bool_text(row.key.is_causal)),
        ("nanos"@, decimal(row.nanos as nat)),
    ]
}

/// Every row of the table of kernels holds under the name of a column what the name says.
pub proof fn law_flash_columns(row: FlashRow)
    ensures
        flash_header().len() == flash_columns(row).len(),
        flash_fields(row).len() == flash_columns(row).len(),
        forall|i: int|
            0 <= i < flash_columns(row).len() ==> #[trigger] flash_columns(row)[i] == (
                flash_header()[i],
                flash_fields(row)[i],
            ),
{
}

/// Every row of the tables of copies, calls and runs holds under the name of a column what
/// the name says; all times are in nanoseconds.
pub proof fn law_columns(
    copy: MemcpyRow,
    key: Seq<char>,
    nanos: u64,
    hash: u64,
    times: Seq<Duration>,
)
    ensures
        memcpy_header() == seq!["kind"@, "size_bytes"@, "nanos"@],
        memcpy_fields(copy).len() == 3,
        memcpy_kind_of(memcpy_fields(copy)[0]) == Some(copy.kind),
        memcpy_fields(copy)[1] == decimal(copy.size as nat),
        memcpy_fields(copy)[2] == decimal(copy.nanos as nat),
        compute_header() == seq!["key"@, "nanos"@],
        compute_fields((key, nanos)) == seq![key, decimal(nanos as nat)],
        sequence_header() == seq!["seq_hash"@, "nanos"@],
        sequence_fields((hash, times)).len() == 2,
        sequence_fields((hash, times))[0] == decimal(hash as nat),
        times.len() == 0 ==> sequence_fields((hash, times))[1].len() == 0,
        times.len() > 0 ==> {
            let parts = split_text(sequence_fields((hash, times))[1], ';');
            &&& parts.len() == times.len()
            &&& forall|i: int|
                0 <= i < times.len() ==> #[trigger] parts[i] == decimal(times[i].nanos as nat)
        },
{
    crate::perf_db::rows::law_memcpy_kind_names(copy.kind);
    let texts = crate::perf_db::rows::times_texts(times);
    if times.len() > 0 {
        assert forall|i: int| 0 <= i < texts.len() implies crate::lines::free_of(
            #[trigger] texts[i],
            ';',
        ) by {
            crate::text::lemma_decimal(times[i].nanos as nat);
        }
        crate::lines::lemma_joined_split(texts, ';');
    }
}

/// Whether one row of numbers comes before another or is the same, number by number.
pub open spec fn numbers_le(a: Seq<int>, b: Seq<int>) -> bool
    decreases a.len(),
{
    if a.len() == 0 || b.len() == 0 {
        true
    } else if a[0] != b[0] {
        a[0] < b[0]
    } else {
        numbers_le(a.skip(1), b.skip(1))
    }
}

/// By what kernels are ordered: backward before forward, then by batch, lengths, heads and
/// the size of a head.
pub open spec fn flash_rank(row: FlashRow) -> Seq<int> {
    seq![
        if row.key.is_fwd {
            1
        } else {
            0
        },
        row.key.batch_size as int,
        row.key.seqlen_q as int,
        row.key.seqlen_k as int,
        row.key.num_heads as int,
        row.key.head_size as int,
    ]
}

/// Kernels stand in the order of what they are ordered by, the first difference deciding.
pub proof fn law_flash_rows_ranked(a: FlashRow, b: FlashRow)
    ensures
        FlashRow::ranked(a, b) <==> numbers_le(flash_rank(a), flash_rank(b)),
{
    reveal_with_fuel(numbers_le, 8);
    let x = flash_rank(a);
    let y = flash_rank(b);
    assert(x.skip(1) =~= seq![x[1], x[2], x[3], x[4], x[5]]);
    assert(y.skip(1) =~= seq![y[1], y[2], y[3], y[4], y[5]]);
    assert(x.skip(1).skip(1) =~= seq![x[2], x[3], x[4], x[5]]);
    assert(y.skip(1).skip(1) =~= seq![y[2], y[3], y[4], y[5]]);
    assert(x.skip(1).skip(1).skip(1) =~= seq![x[3], x[4], x[5]]);
    assert(y.skip(1).skip(1).skip(1) =~= seq![y[3], y[4], y[5]]);
    assert(x.skip(1).skip(1).skip(1).skip(1) =~= seq![x[4], x[5]]);
    assert(y.skip(1).skip(1).skip(1).skip(1) =~= seq![y[4], y[5]]);
    assert(x.skip(1).skip(1).skip(1).skip(1).skip(1) =~= seq![x[5]]);
    assert(y.skip(1).skip(1).skip(1).skip(1).skip(1) =~= seq![y[5]]);
    assert(x.skip(1).skip(1).skip(1).skip(1).skip(1).skip(1) =~= seq![]);
    assert(y.skip(1).skip(1).skip(1).skip(1).skip(1).skip(1) =~= seq![]);
}

/// Copies stand in the order of the names of their kinds, then of their sizes, calls in
/// the order of their keys and runs in that of their hashes.
pub proof fn law_rows_ranked(
    a: MemcpyRow,
    b: MemcpyRow,
    x: (Seq<char>, u64),
    y: (Seq<char>, u64),
    r: (u64, Seq<Duration>),
    s: (u64, Seq<Duration>),
)
    ensures
        MemcpyRow::ranked(a, b) && a.kind != b.kind ==> text_le(
            memcpy_kind_text(a.kind),
            memcpy_kind_text(b.kind),
        ),
        MemcpyRow::ranked(a, b) && a.kind == b.kind ==> a.size <= b.size,
        MemcpyRow::ranked(a, b) && a.kind == b.kind && a.size == b.size ==> a.nanos <= b.nanos,
        ComputeRow::ranked(x, y) ==> text_le(x.0, y.0),
        ComputeRow::ranked(x, y) && x.0 == y.0 ==> x.1 <= y.1,
        SequenceRow::ranked(r, s) <==> r.0 <= s.0,
{
    crate::text::lemma_text_order(x.0, y.0);
}

/// A table holds its header and then one record for each row, in order.
pub proof fn law_table_holds_rows<T: Ranked>(
    header: Record,
    rows: Seq<T::V>,
    fields: spec_fn(T::V) -> Record,
) -> (all: Seq<T::V>)
    requires
        forall|a: T::V, b: T::V| T::ranked(a, b) || T::ranked(b, a),
        forall|a: T::V, b: T::V, c: T::V| T::ranked(a, b) && T::ranked(b, c) ==> T::ranked(a, c),
    ensures
        all.to_multiset() == rows.to_multiset(),
        sorted::<T>(all),
        ({
            let records = table_records::<T>(header, rows, fields);
            &&& records.len() == rows.len() + 1
            &&& records[0] == header
            &&& all.len() == rows.len()
            &&& forall|i: int| 0 <= i < all.len() ==> records[i + 1] == fields(#[trigger] all[i])
        }),
{
    law_sort_keeps_items::<T>(rows);
    law_sort_orders::<T>(rows);
    in_order::<T>(rows)
}

/// Each known time is one row, under its key.
pub proof fn law_rows_of_times(
    calls: Seq<CallView>,
    compute: Map<CallView, Duration>,
    copies: Seq<(CudaMemcpyKind, usize)>,
    memcpy: Map<(CudaMemcpyKind, usize), Duration>,
    keys: Seq<FlashAttnKey>,
    flash: Map<FlashAttnKey, Duration>,
    hashes: Seq<u64>,
    sequence: Map<u64, Seq<Duration>>,
    i: int,
)
    ensures
        compute_rows(calls, compute).len() == calls.len(),
        memcpy_rows(copies, memcpy).len() == copies.len(),
        flash_rows(keys, flash).len() == keys.len(),
        sequence_rows(hashes, sequence).len() == hashes.len(),
        0 <= i < calls.len() ==> compute_rows(calls, compute)[i] == (
            key_text(calls[i]),
            compute[calls[i]].nanos,
        ),
        0 <= i < copies.len() ==> {
            let row = memcpy_rows(copies, memcpy)[i];
            (row.kind, row.size) == copies[i] && row.nanos == memcpy[copies[i]].nanos
        },
        0 <= i < keys.len() ==> flash_rows(keys, flash)[i].key == keys[i] && flash_rows(
            keys,
            flash,
        )[i].nanos == flash[keys[i]].nanos,
        0 <= i < hashes.len() ==> sequence_rows(hashes, sequence)[i] == (
            hashes[i],
            sequence[hashes[i]],
        ),
{
}

/// A row of the table of copies is read exactly where its first three fields are the name
/// of a kind, a size and a time; further fields are passed over.
pub proof fn law_memcpy_row_read(r: Record, kind: CudaMemcpyKind, size: usize, nanos: u64)
    ensures
        memcpy_row(r) == Ok::<((CudaMemcpyKind, usize), Duration), LoadErrorView>(
            ((kind, size), Duration { nanos }),
        ) <==> {
            &&& r.len() >= 3
            &&& memcpy_kind_of(r[0]) == Some(kind)
            &&& unsigned_value(r[1], usize::MAX as nat) == Some(size as nat)
            &&& unsigned_value(r[2], u64::MAX as nat) == Some(nanos as nat)
        },
        r.len() > 0 && memcpy_kind_of(r[0]) is None ==> memcpy_row(r) == Err::<
            ((CudaMemcpyKind, usize), Duration),
            LoadErrorView,
        >(LoadErrorView::UnknownKind(r[0])),
{
}

/// A row of the table of calls is read exactly where its last two of two or three fields
/// are a call and a time; further fields are passed over.
pub proof fn law_compute_row_read(r: Record, call: CallView, nanos: u64)
    ensures
        compute_row(r) == Ok::<(CallView, Duration), LoadErrorView>((call, Duration { nanos }))
            <==> {
            ||| r.len() == 2 && key_call(r[0]) == Ok::<CallView, LoadErrorView>(call)
                && unsigned_value(r[1], u64::MAX as nat) == Some(nanos as nat)
            ||| r.len() >= 3 && key_call(r[1]) == Ok::<CallView, LoadErrorView>(call)
                && unsigned_value(r[2], u64::MAX as nat) == Some(nanos as nat)
        },
        r.len() < 2 ==> compute_row(r) == Err::<(CallView, Duration), LoadErrorView>(
            LoadErrorView::ShortRow,
        ),
{
}

proof fn lemma_i32s(r: Record, i: int, n: int)
    requires
        0 <= i,
        0 <= n,
    ensures
        i32s_at(r, i, n) is Ok <==> (n == 0 || i + n <= r.len()) && forall|k: int|
            0 <= k < n ==> i32_value(#[trigger] r[i + k]) is Some,
        i32s_at(r, i, n) matches Ok(l) ==> l.len() == n && forall|k: int|
            0 <= k < n ==> i32_value(r[i + k]) == Some(#[trigger] l[k]),
    decreases n,
{
    if n > 0 {
        lemma_i32s(r, i, n - 1);
        let last = i + (n - 1);
        if i32s_at(r, i, n) is Ok {
            assert(i32_value(r[last]) is Some);
            assert forall|k: int| 0 <= k < n implies i32_value(#[trigger] r[i + k]) is Some by {
                if k < n - 1 {
                    assert(i32_value(r[i + k]) is Some);
                }
            }
        }
    }
}

/// The eight numbers of a kernel, in the order in which they are written.
pub open spec fn flash_numbers(key: FlashAttnKey) -> Seq<i32> {
    seq![
        key.batch_size,
        key.seqlen_q,
        key.seqlen_k,
        key.num_heads,
        key.num_heads_k,
        key.head_size,
        key.window_size_left,
        key.window_size_right,
    ]
}

/// A row of the table of kernels that is read has a flag, a flag, eight numbers, a flag
/// and a time, in this order.
pub proof fn law_flash_row_read(r: Record, key: FlashAttnKey, nanos: u64)
    requires
        flash_row(r) == Ok::<(FlashAttnKey, Duration), LoadErrorView>((key, Duration { nanos })),
    ensures
        r.len() >= 12,
        bool_value(r[0]) == Some(key.is_fwd),
        bool_value(r[1]) == Some(key.is_bf16),
        forall|k: int|
            0 <= k < 8 ==> i32_value(r[2 + k]) == Some(#[trigger] flash_numbers(key)[k]),
        bool_value(r[10]) == Some(key.is_causal),
        unsigned_value(r[11], u64::MAX as nat) == Some(nanos as nat),
{
    lemma_i32s(r, 2, 8);
    let l = i32s_at(r, 2, 8)->Ok_0;
    assert forall|k: int| 0 <= k < 8 implies i32_value(r[2 + k]) == Some(
        #[trigger] flash_numbers(key)[k],
    ) by {
        assert(i32_value(r[2 + k]) == Some(l[k]));
        assert(flash_numbers(key)[k] == l[k]);
    }
}

/// The times of a run are read in order; what is left empty between them is passed over,
/// and anything else spoils the row.
pub proof fn law_times_read(a: Seq<Seq<char>>, b: Seq<Seq<char>>, part: Seq<char>)
    ensures
        part.len() == 0 ==> part_times(seq![part]) == Some(Seq::<Duration>::empty()),
        part.len() > 0 ==> part_times(seq![part]) == match unsigned_value(
            part,
            u64::MAX as nat,
        ) {
            Some(n) => Some(seq![Duration { nanos: n as u64 }]),
            None => None,
        },
        part_times(a + b) == match (part_times(a), part_times(b)) {
            (Some(x), Some(y)) => Some(x + y),
            _ => None,
        },
    decreases b.len(),
{
    let one = seq![part];
    assert(one.drop_last() =~= seq![]);
    assert(part_times(one.drop_last()) == Some(Seq::<Duration>::empty()));
    if part.len() > 0 {
        if let Some(n) = unsigned_value(part, u64::MAX as nat) {
            assert(Seq::<Duration>::empty().push(Duration { nanos: n as u64 }) =~= seq![
                Duration { nanos: n as u64 },
            ]);
        }
    }
    if b.len() == 0 {
        assert(a + b =~= a);
        if let Some(x) = part_times(a) {
            assert(x + Seq::<Duration>::empty() =~= x);
        }
    } else {
        law_times_read(a, b.drop_last(), part);
        assert((a + b).drop_last() =~= a + b.drop_last());
        assert((a + b).last() == b.last());
        match (part_times(a), part_times(b.drop_last())) {
            (Some(x), Some(y)) => {
                if let Some(n) = unsigned_value(b.last(), u64::MAX as nat) {
                    let d = Duration { nanos: n as u64 };
                    assert((x + y).push(d) =~= x + y.push(d));
                }
            },
            _ => {},
        }
    }
}

/// A row of the table of runs is read exactly where it holds a hash and then times.
pub proof fn law_sequence_row_read(r: Record, hash: u64, times: Seq<Duration>)
    ensures
        sequence_row(r) == Ok::<(u64, Seq<Duration>), LoadErrorView>((hash, times)) <==> {
            &&& r.len() >= 2
            &&& unsigned_value(r[0], u64::MAX as nat) == Some(hash as nat)
            &&& part_times(split_text(r[1], ';')) == Some(times)
        },
{
}

/// What a row of a table holds, or what is wrong with it.
pub open spec fn row_read<K, V>(
    rows: Seq<Option<Record>>,
    read: spec_fn(Record) -> Result<(K, V), LoadErrorView>,
    i: int,
) -> Result<(K, V), LoadErrorView> {
    match rows[i] {
        Some(r) => read(r),
        None => Err(LoadErrorView::Csv),
    }
}

/// Whether a row that is read holds a key.
pub open spec fn holds_key<K, V>(row: Result<(K, V), LoadErrorView>, key: K) -> bool {
    row matches Ok((k, _)) && k == key
}

/// A table is read row by row. Where every row can be read, each key has the value of the
/// last row that holds it; otherwise the first row that cannot be read says what is wrong.
pub proof fn law_last_row_wins<K, V>(
    rows: Seq<Option<Record>>,
    read: spec_fn(Record) -> Result<(K, V), LoadErrorView>,
    n: int,
)
    requires
        0 <= n <= rows.len(),
    ensures
        match table_of(rows, read, n) {
            Ok(m) => {
                &&& forall|i: int| 0 <= i < n ==> #[trigger] row_read(rows, read, i) is Ok
                &&& forall|k: K| #[trigger]
                    m.contains_key(k) <==> exists|i: int|
                        0 <= i < n && holds_key(#[trigger] row_read(rows, read, i), k)
                &&& forall|i: int|
                    0 <= i < n && (forall|j: int|
                        i < j < n ==> !holds_key(
                            #[trigger] row_read(rows, read, j),
                            row_read(rows, read, i)->Ok_0.0,
                        )) ==> m[(#[trigger] row_read(rows, read, i))->Ok_0.0] == row_read(
                        rows,
                        read,
                        i,
                    )->Ok_0.1
            },
            Err(e) => exists|i: int|
                0 <= i < n && #[trigger] row_read(rows, read, i) == Err::<(K, V), LoadErrorView>(e)
                    && forall|j: int| 0 <= j < i ==> #[trigger] row_read(rows, read, j) is Ok,
        },
    decreases n,
{
    if n > 0 {
        law_last_row_wins(rows, read, n - 1);
        let last = row_read(rows, read, n - 1);
        match table_of(rows, read, n - 1) {
            Ok(m) => {
                if let Ok((key, value)) = last {
                    let after = m.insert(key, value);
                    assert(holds_key(last, key));
                    assert forall|k: K| #[trigger] after.contains_key(k) <==> exists|i: int|
                        0 <= i < n && holds_key(#[trigger] row_read(rows, read, i), k) by {
                        if after.contains_key(k) && k != key {
                            assert(m.contains_key(k));
                            let i = choose|i: int|
                                0 <= i < n - 1 && holds_key(
                                    #[trigger] row_read(rows, read, i),
                                    k,
                                );
                            assert(holds_key(row_read(rows, read, i), k));
                        }
                    }
                    assert forall|i: int|
                        0 <= i < n && (forall|j: int|
                            i < j < n ==> !holds_key(
                                #[trigger] row_read(rows, read, j),
                                row_read(rows, read, i)->Ok_0.0,
                            )) implies after[(#[trigger] row_read(rows, read, i))->Ok_0.0]
                        == row_read(rows, read, i)->Ok_0.1 by {
                        if i < n - 1 {
                            assert(!holds_key(
                                row_read(rows, read, n - 1),
                                row_read(rows, read, i)->Ok_0.0,
                            ));
                        }
                    }
                }
            },
            Err(e) => {
                let i = choose|i: int|
                    0 <= i < n - 1 && #[trigger] row_read(rows, read, i) == Err::<
                        (K, V),
                        LoadErrorView,
                    >(e) && forall|j: int| 0 <= j < i ==> #[trigger] row_read(rows, read, j) is Ok;
                assert(row_read(rows, read, i) == Err::<(K, V), LoadErrorView>(e));
            },
        }
    }
}

/// A file that is not there is an empty table.
pub proof fn law_absent_file_is_empty<K, V>(
    read: spec_fn(Record) -> Result<(K, V), LoadErrorView>,
    bytes: Seq<u8>,
)
    ensures
        table_in(None, read) == Ok::<Map<K, V>, LoadErrorView>(Map::empty()),
        table_in(Some(bytes), read) == table_of(
            csv_rows(bytes),
            read,
            csv_rows(bytes).len() as int,
        ),
{
}

/// A database is read from the files of its four tables; it is read where each of them
/// can be. The GPU is the one that the description names, if there is one.
pub proof fn law_database_read(f: FilesView, db: DbView)
    ensures
        loaded(f) == Ok::<DbView, LoadErrorView>(db) <==> {
            &&& table_in(f.compute, |r: Record| compute_row(r)) == Ok::<
                Map<CallView, Duration>,
                LoadErrorView,
            >(db.compute)
            &&& table_in(f.memcpy, |r: Record| memcpy_row(r)) == Ok::<
                Map<(CudaMemcpyKind, usize), Duration>,
                LoadErrorView,
            >(db.memcpy)
            &&& table_in(f.flash_attn, |r: Record| flash_row(r)) == Ok::<
                Map<FlashAttnKey, Duration>,
                LoadErrorView,
            >(db.flash_attn)
            &&& table_in(f.sequence, |r: Record| sequence_row(r)) == Ok::<
                Map<u64, Seq<Duration>>,
                LoadErrorView,
            >(db.sequence)
            &&& f.manifest matches Some(text) ==> db.gpu_name == manifest_gpu(text)
            &&& f.manifest is None ==> db.gpu_name.len() == 0
        },
{
    if f.manifest is None && db.gpu_name.len() == 0 {
        assert(db.gpu_name =~= seq![]);
    }
}

/// A table that may be left out has a file exactly where it has entries.
pub proof fn law_empty_tables_have_no_file(n: nat, rows: Seq<Record>)
    ensures
        unless_empty(n, rows) is None <==> n == 0,
        n > 0 ==> unless_empty(n, rows) == Some(csv_bytes(rows)),
{
}

/// The description names the GPU and counts the entries of each table.
pub proof fn law_description(gpu: Seq<char>, compute: nat, sequence: nat, memcpy: nat, flash: nat)
    ensures
        ({
            let lines = manifest_lines(gpu, compute, sequence, memcpy, flash);
            &&& lines.contains("- **GPU:** "@ + gpu)
            &&& lines.contains("- **compute entries:** "@ + decimal(compute))
            &&& lines.contains("- **sequence entries:** "@ + decimal(sequence))
            &&& lines.contains("- **memcpy entries:** "@ + decimal(memcpy))
            &&& lines.contains("- **flash_attn entries:** "@ + decimal(flash))
        }),
{
    let lines = manifest_lines(gpu, compute, sequence, memcpy, flash);
    assert(lines[2] == "- **GPU:** "@ + gpu);
    assert(lines[4] == "- **compute entries:** "@ + decimal(compute));
    assert(lines[5] == "- **sequence entries:** "@ + decimal(sequence));
    assert(lines[6] == "- **memcpy entries:** "@ + decimal(memcpy));
    assert(lines[7] == "- **flash_attn entries:** "@ + decimal(flash));
}

/// Whether some items are the first `p` of them over and over.
pub open spec fn goes_round(items: Seq<JsonTree>, p: int) -> bool {
    &&& items.len() as int % p == 0
    &&& forall|i: int| 0 <= i < items.len() ==> same_tree(#[trigger] items[i], items[i % p])
}

proof fn lemma_period(items: Seq<JsonTree>, p: int)
    requires
        1 <= p,
    ensures
        match period_from(items, p) {
            Some(q) => p <= q <= items.len() / 2 && goes_round(items, q) && forall|r: int|
                p <= r < q ==> !#[trigger] goes_round(items, r),
            None => forall|r: int| p <= r <= items.len() / 2 ==> !#[trigger] goes_round(items, r),
        },
    decreases items.len() - p,
{
    if p <= items.len() / 2 {
        if goes_round(items, p) {
            assert(crate::perf_db::codec::repeats(items, p));
        } else {
            assert(!crate::perf_db::codec::repeats(items, p));
            lemma_period(items, p + 1);
        }
    }
}

/// Items that go round are written once, with how often they go round, and the round is
/// the shortest one; other items are written one by one.
pub proof fn law_shortest_round(items: Seq<JsonTree>, p: int)
    requires
        short_list(items),
        1 <= p <= items.len() / 2,
        goes_round(items, p),
        forall|r: int| 1 <= r < p ==> !#[trigger] goes_round(items, r),
    ensures
        ({
            let round = JsonTree::Array(items.take(p));
            let times = JsonTree::Number(JsonNumber::PosInt((items.len() as int / p) as u64));
            short_array(items) == JsonTree::Object(
                seq![("R"@, JsonTree::Array(seq![times, round]))],
            )
        }),
{
    lemma_period(items, 1);
    match period_from(items, 1) {
        Some(q) => {
            if q < p {
                assert(goes_round(items, q));
            } else if q > p {
                assert(!goes_round(items, p));
            }
        },
        None => {
            assert(!goes_round(items, p));
        },
    }
}

/// Items that are no tensors, or that do not go round, are written one by one.
pub proof fn law_no_round(items: Seq<JsonTree>)
    requires
        short_list(items) ==> forall|r: int|
            1 <= r <= items.len() / 2 ==> !#[trigger] goes_round(items, r),
    ensures
        short_array(items) == JsonTree::Array(items),
{
    lemma_period(items, 1);
    if let Some(q) = period_from(items, 1) {
        if short_list(items) {
            assert(goes_round(items, q));
        }
    }
}

/// Whether a tree has texts, flags, whole numbers and lists in it, and nothing else.
pub open spec fn is_simple(t: JsonTree) -> bool
    decreases t,
{
    match t {
        JsonTree::Number(n) => !(n is Float),
        JsonTree::Array(a) => forall|i: int| 0 <= i < a.len() ==> is_simple(#[trigger] a[i]),
        JsonTree::Object(_) => false,
        _ => true,
    }
}

/// Simple trees, as those of tensors in short form are, are the same exactly where they
/// are equal.
pub proof fn law_same_where_equal(a: JsonTree, b: JsonTree)
    requires
        is_simple(a),
    ensures
        same_tree(a, b) <==> a == b,
    decreases a,
{
    match (a, b) {
        (JsonTree::Array(x), JsonTree::Array(y)) => {
            assert forall|i: int| 0 <= i < x.len() && x.len() == y.len() implies (same_tree(
                #[trigger] x[i],
                y[i],
            ) <==> x[i] == y[i]) by {
                crate::json::lemma_item_smaller(a, i);
                law_same_where_equal(x[i], y[i]);
            }
            if same_tree(a, b) {
                assert forall|i: int| 0 <= i < x.len() implies x[i] == y[i] by {
                    assert(same_tree(x[i], y[i]));
                }
                assert(x =~= y);
            }
            if a == b {
                assert forall|i: int| 0 <= i < x.len() implies same_tree(#[trigger] x[i], y[i]) by {
                    assert(x[i] == y[i]);
                }
            }
        },
        _ => {},
    }
}

/// The short names of element types.
pub open spec fn short_names() -> Seq<(Seq<char>, Seq<char>)> {
    seq![
        ("Float"@, "f32"@),
        ("Double"@, "f64"@),
        ("Half"@, "f16"@),
        ("BFloat16"@, "bf16"@),
        ("Bool"@, "b8"@),
        ("Int8"@, "i8"@),
        ("Int16"@, "i16"@),
        ("Int"@, "i32"@),
        ("Int64"@, "i64"@),
        ("Uint8"@, "u8"@),
    ]
}

/// An element type has a short name exactly where one is listed for it.
pub proof fn law_short_names(name: Seq<char>, code: Seq<char>)
    ensures
        code_of(name) == Some(code) <==> short_names().contains((name, code)),
{
    reveal_strlit("Float");
    reveal_strlit("Double");
    reveal_strlit("Half");
    reveal_strlit("BFloat16");
    reveal_strlit("Bool");
    reveal_strlit("Int");
    reveal_strlit("Int64");
    reveal_strlit("Int16");
    reveal_strlit("Int8");
    reveal_strlit("Uint8");
    assert("Float"@.len() == 5 && "Float"@[0] == 'F');
    assert("Double"@.len() == 6 && "Half"@.len() == 4 && "BFloat16"@.len() == 8);
    assert("Half"@[0] == 'H' && "Bool"@.len() == 4 && "Bool"@[0] == 'B');
    assert("Int"@.len() == 3 && "Int8"@.len() == 4 && "Int8"@[0] == 'I');
    assert("Int64"@.len() == 5 && "Int64"@[0] == 'I' && "Int64"@[3] == '6');
    assert("Int16"@.len() == 5 && "Int16"@[0] == 'I' && "Int16"@[3] == '1');
    assert("Uint8"@.len() == 5 && "Uint8"@[0] == 'U');
    let l = short_names();
    assert(l[0] == ("Float"@, "f32"@) && l[1] == ("Double"@, "f64"@) && l[2] == ("Half"@, "f16"@));
    assert(l[3] == ("BFloat16"@, "bf16"@) && l[4] == ("Bool"@, "b8"@) && l[5] == ("Int8"@, "i8"@));
    assert(l[6] == ("Int16"@, "i16"@) && l[7] == ("Int"@, "i32"@) && l[8] == ("Int64"@, "i64"@));
    assert(l[9] == ("Uint8"@, "u8"@));
    if l.contains((name, code)) {
        let i = choose|i: int| 0 <= i < l.len() && l[i] == (name, code);
        assert(i == 0 || i == 1 || i == 2 || i == 3 || i == 4 || i == 5 || i == 6 || i == 7 || i
            == 8 || i == 9);
    }
}

/// A tensor whose element type has a short name is written as that name and its shape.
pub proof fn law_short_tensor(shape: Seq<JsonTree>, name: Seq<char>, code: Seq<char>)
    requires
        short_names().contains((name, code)),
    ensures
        compacted(full_tensor(JsonTree::Array(shape), name)) == JsonTree::Array(
            seq![JsonTree::Text(code), JsonTree::Array(shape)],
        ),
{
    law_short_names(name, code);
    reveal_strlit("shape");
    reveal_strlit("dtype");
    assert("shape"@[0] == 's' && "dtype"@[0] == 'd');
    let m = seq![("shape"@, JsonTree::Array(shape)), ("dtype"@, JsonTree::Text(name))];
    reveal_with_fuel(crate::perf_db::codec::entry, 3);
    assert(full_tensor(JsonTree::Array(shape), name) == JsonTree::Object(m));
}

/// A list is written short by writing each item short, in order, before it is seen whether
/// they go round.
pub proof fn law_short_items(items: Seq<JsonTree>, i: int)
    requires
        0 <= i < items.len(),
    ensures
        compacted(JsonTree::Array(items)) == short_array(compacted_items(items)),
        compacted_items(items).len() == items.len(),
        compacted_items(items)[i] == compacted(items[i]),
{
}

/// A call is written under the name of its operator: by the names of its arguments where
/// they have names, else as its one argument or as the list of its arguments.
pub proof fn law_call_written(c: CallView, i: int)
    ensures
        call_json(c) == JsonTree::Object(seq![(c.op.text(), body_json(c))]),
        c.op.fields() is None && c.args.len() == 1 ==> body_json(c) == arg_json(c.args[0]),
        c.op.fields() is None && c.args.len() != 1 ==> {
            &&& body_json(c) matches JsonTree::Array(items)
            &&& items.len() == c.args.len()
            &&& 0 <= i < items.len() ==> items[i] == arg_json(c.args[i])
        },
        c.op.fields() matches Some(names) ==> body_json(c) is Object && (0 <= i < c.args.len()
            && !(names[i] == "mask"@ && c.args[i] == ArgView::Optional(None))
            ==> body_json(c)->Object_0.contains((names[i], arg_json(c.args[i])))),
{
    if let Some(names) = c.op.fields() {
        if 0 <= i < c.args.len() && !(names[i] == "mask"@ && c.args[i] == ArgView::Optional(
            None,
        )) {
            lemma_field_written(names, c.args, i, c.args.len() as int);
        }
    }
}

proof fn lemma_field_written(names: Seq<Seq<char>>, args: Seq<ArgView>, i: int, n: int)
    requires
        0 <= i < n,
        !(names[i] == "mask"@ && args[i] == ArgView::Optional(None)),
    ensures
        fields_json(names, args, n).contains((names[i], arg_json(args[i]))),
    decreases n,
{
    let all = fields_json(names, args, n);
    let before = fields_json(names, args, n - 1);
    let x = (names[i], arg_json(args[i]));
    if i == n - 1 {
        assert(all[before.len() as int] == x);
    } else {
        lemma_field_written(names, args, i, n - 1);
        let k = choose|k: int| 0 <= k < before.len() && before[k] == x;
        assert(all[k] == x);
    }
}

} // verus!
