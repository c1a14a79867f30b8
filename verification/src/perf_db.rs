//! Recorded kernel times, as tables that can be read without a GPU.
//!
//! A database is a set of CSV tables and a description. A call is recorded under its
//! JSON in short form, see [`codec`].

pub mod call_json;
pub mod call_laws;
pub mod codec;
pub mod csv_io;
pub mod form_laws;
pub mod key_order;
pub mod lossless;
pub mod manifest;
pub mod read_laws;
pub mod rows;
pub mod shape;

use crate::cuda_call::CudaMemcpyKind;
use crate::duration::Duration;
use crate::lines::{free_of, trimmed};
use crate::perf_db::call_laws::{lemma_held_call, valid_call};
use crate::perf_db::csv_io::{
    all_read, csv_bytes, csv_rows, is_table, read_records, read_row, record, records, write_table,
    Record,
};
use crate::perf_db::manifest::{
    law_gpu_read_back, manifest_gpu, manifest_text, read_manifest, write_manifest,
};
use crate::perf_db::rows::{
    compute_fields, compute_row, flash_fields, flash_row, key_call, key_text,
    law_compute_row_read_back, law_compute_rows_ordered, law_flash_row_read_back,
    law_memcpy_row_read_back, law_memcpy_rows_ordered,
    law_sequence_row_read_back, memcpy_fields, memcpy_row, read_compute_row, read_flash_row,
    read_memcpy_row, read_sequence_row, sequence_fields, sequence_row, write_compute_row,
    write_flash_row, write_key, write_memcpy_row, write_sequence_row, ComputeRow, FlashRow,
    LoadError, LoadErrorView, MemcpyRow, SequenceRow,
};
use crate::sort::{
    in_order, law_sort_forgets_order, law_sort_keeps_items, lemma_mapped_items, lemma_same_items,
    sort_rows, views, Ranked,
};
use crate::table::{MapKey, Table};
use crate::torch_call::{CallView, TorchCallInfo};
use crate::torch_op::is_well_typed;
use vstd::prelude::*;

verus! {

/// A flash-attention kernel with everything its time depends on.
#[derive(Clone, Copy, Debug, PartialEq, Eq, Hash, Structural)]
pub struct FlashAttnKey {
    pub is_fwd: bool,
    pub is_bf16: bool,
    pub batch_size: i32,
    pub seqlen_q: i32,
    pub seqlen_k: i32,
    pub num_heads: i32,
    pub num_heads_k: i32,
    pub head_size: i32,
    pub window_size_left: i32,
    pub window_size_right: i32,
    pub is_causal: bool,
}

impl View for FlashAttnKey {
    type V = FlashAttnKey;

    open spec fn view(&self) -> FlashAttnKey {
        *self
    }
}

impl MapKey for FlashAttnKey {
    fn same_key(&self, other: &Self) -> (b: bool) {
        *self == *other
    }
}

/// All recorded times.
pub struct PerfDb {
    pub gpu_name: String,
    pub compute: Table<TorchCallInfo, Duration>,
    pub sequence: Table<u64, Vec<Duration>>,
    pub memcpy: Table<(CudaMemcpyKind, usize), Duration>,
    pub flash_attn: Table<FlashAttnKey, Duration>,
}

/// What a [`PerfDb`] stands for.
#[verifier::ext_equal]
pub struct DbView {
    pub gpu_name: Seq<char>,
    pub compute: Map<CallView, Duration>,
    pub sequence: Map<u64, Seq<Duration>>,
    pub memcpy: Map<(CudaMemcpyKind, usize), Duration>,
    pub flash_attn: Map<FlashAttnKey, Duration>,
}

impl View for PerfDb {
    type V = DbView;

    open spec fn view(&self) -> DbView {
        DbView {
            gpu_name: self.gpu_name@,
            compute: self.compute@,
            sequence: self.sequence@,
            memcpy: self.memcpy@,
            flash_attn: self.flash_attn@,
        }
    }
}

impl Default for PerfDb {
    fn default() -> (db: Self)
        ensures
            db@ == (DbView {
                gpu_name: seq![],
                compute: Map::empty(),
                sequence: Map::empty(),
                memcpy: Map::empty(),
                flash_attn: Map::empty(),
            }),
    {
        PerfDb {
            gpu_name: String::new(),
            compute: Table::new(),
            sequence: Table::new(),
            memcpy: Table::new(),
            flash_attn: Table::new(),
        }
    }
}

/// The files of a database. A table may be missing.
pub struct DbFiles {
    /// `compute.csv`
    pub compute: Option<Vec<u8>>,
    /// `memcpy.csv`
    pub memcpy: Option<Vec<u8>>,
    /// `flash_attn.csv`
    pub flash_attn: Option<Vec<u8>>,
    /// `sequence.csv`
    pub sequence: Option<Vec<u8>>,
    /// `manifest.md`
    pub manifest: Option<String>,
}

/// What a [`DbFiles`] stands for.
#[verifier::ext_equal]
pub struct FilesView {
    pub compute: Option<Seq<u8>>,
    pub memcpy: Option<Seq<u8>>,
    pub flash_attn: Option<Seq<u8>>,
    pub sequence: Option<Seq<u8>>,
    pub manifest: Option<Seq<char>>,
}

/// What the bytes of a file stand for.
pub open spec fn file_view(f: Option<Vec<u8>>) -> Option<Seq<u8>> {
    match f {
        Some(b) => Some(b@),
        None => None,
    }
}

impl View for DbFiles {
    type V = FilesView;

    open spec fn view(&self) -> FilesView {
        FilesView {
            compute: file_view(self.compute),
            memcpy: file_view(self.memcpy),
            flash_attn: file_view(self.flash_attn),
            sequence: file_view(self.sequence),
            manifest: match self.manifest {
                Some(s) => Some(s@),
                None => None,
            },
        }
    }
}

/// The table that the first `n` rows make up. The first row that cannot be read decides;
/// of two rows with the same key the later one counts.
pub open spec fn table_of<K, V>(
    rows: Seq<Option<Record>>,
    read: spec_fn(Record) -> Result<(K, V), LoadErrorView>,
    n: int,
) -> Result<Map<K, V>, LoadErrorView>
    decreases n,
{
    if n <= 0 {
        Ok(Map::empty())
    } else {
        match table_of(rows, read, n - 1) {
            Err(e) => Err(e),
            Ok(m) => match rows[n - 1] {
                None => Err(LoadErrorView::Csv),
                Some(r) => match read(r) {
                    Err(e) => Err(e),
                    Ok((k, v)) => Ok(m.insert(k, v)),
                },
            },
        }
    }
}

/// The table in a file. A file that is missing is an empty table.
pub open spec fn table_in<K, V>(
    file: Option<Seq<u8>>,
    read: spec_fn(Record) -> Result<(K, V), LoadErrorView>,
) -> Result<Map<K, V>, LoadErrorView> {
    match file {
        None => Ok(Map::empty()),
        Some(bytes) => table_of(csv_rows(bytes), read, csv_rows(bytes).len() as int),
    }
}

/// The database in some files. The tables are read one after the other, and the first
/// that cannot be read decides.
pub open spec fn loaded(f: FilesView) -> Result<DbView, LoadErrorView> {
    match table_in(f.compute, |r: Record| compute_row(r)) {
        Err(e) => Err(e),
        Ok(compute) => match table_in(f.memcpy, |r: Record| memcpy_row(r)) {
            Err(e) => Err(e),
            Ok(memcpy) => match table_in(f.flash_attn, |r: Record| flash_row(r)) {
                Err(e) => Err(e),
                Ok(flash_attn) => match table_in(f.sequence, |r: Record| sequence_row(r)) {
                    Err(e) => Err(e),
                    Ok(sequence) => Ok(
                        DbView {
                            gpu_name: match f.manifest {
                                Some(text) => manifest_gpu(text),
                                None => seq![],
                            },
                            compute,
                            sequence,
                            memcpy,
                            flash_attn,
                        },
                    ),
                },
            },
        },
    }
}

proof fn lemma_table_stuck<K, V>(
    rows: Seq<Option<Record>>,
    read: spec_fn(Record) -> Result<(K, V), LoadErrorView>,
    n: int,
    end: int,
)
    requires
        n <= end,
        table_of(rows, read, n) is Err,
    ensures
        table_of(rows, read, end) == table_of(rows, read, n),
    decreases end - n,
{
    if n < end && n >= 0 {
        assert(table_of(rows, read, n + 1) == table_of(rows, read, n));
        lemma_table_stuck(rows, read, n + 1, end);
    }
}

/// Whether every call in a table has the arguments that its operator takes.
pub open spec fn all_valid(m: Map<CallView, Duration>) -> bool {
    forall|k: CallView| #[trigger] m.contains_key(k) ==> valid_call(k)
}

fn load_compute(file: &Option<Vec<u8>>) -> (r: Result<Table<TorchCallInfo, Duration>, LoadError>)
    ensures
        match r {
            Ok(t) => table_in(file_view(*file), |r: Record| compute_row(r)) == Ok::<
                Map<CallView, Duration>,
                LoadErrorView,
            >(t@) && all_valid(t@) && t.distinct(),
            Err(e) => table_in(file_view(*file), |r: Record| compute_row(r)) == Err::<
                Map<CallView, Duration>,
                LoadErrorView,
            >(e@),
        },
{
    let ghost read = |r: Record| compute_row(r);
    let mut t: Table<TorchCallInfo, Duration> = Table::new();
    let bytes = match file {
        None => {
            return Ok(t);
        },
        Some(bytes) => bytes,
    };
    let rows = read_records(bytes);
    let ghost all = csv_rows(bytes@);
    let mut i: usize = 0;
    while i < rows.len()
        invariant
            i <= rows@.len(),
            rows@.map_values(|x: Result<Vec<String>, csv::Error>| read_row(x)) == all,
            all == csv_rows(bytes@),
            file_view(*file) == Some(bytes@),
            read == (|r: Record| compute_row(r)),
            table_of(all, read, i as int) == Ok::<Map<CallView, Duration>, LoadErrorView>(t@),
            all_valid(t@),
            t.distinct(),
        decreases rows@.len() - i,
    {
        assert(all[i as int] == read_row(rows@[i as int]));
        let next = match &rows[i] {
            Err(_) => Err(LoadError::Csv),
            Ok(fields) => read_compute_row(fields),
        };
        match next {
            Err(e) => {
                proof {
                    lemma_table_stuck(all, read, i + 1, all.len() as int);
                }
                return Err(e);
            },
            Ok((k, v)) => t.insert(k, v),
        }
        i += 1;
    }
    Ok(t)
}

fn load_memcpy(file: &Option<Vec<u8>>) -> (r: Result<
    Table<(CudaMemcpyKind, usize), Duration>,
    LoadError,
>)
    ensures
        match r {
            Ok(t) => table_in(file_view(*file), |r: Record| memcpy_row(r)) == Ok::<
                Map<(CudaMemcpyKind, usize), Duration>,
                LoadErrorView,
            >(t@) && t.distinct(),
            Err(e) => table_in(file_view(*file), |r: Record| memcpy_row(r)) == Err::<
                Map<(CudaMemcpyKind, usize), Duration>,
                LoadErrorView,
            >(e@),
        },
{
    let ghost read = |r: Record| memcpy_row(r);
    let mut t: Table<(CudaMemcpyKind, usize), Duration> = Table::new();
    let bytes = match file {
        None => {
            return Ok(t);
        },
        Some(bytes) => bytes,
    };
    let rows = read_records(bytes);
    let ghost all = csv_rows(bytes@);
    let mut i: usize = 0;
    while i < rows.len()
        invariant
            i <= rows@.len(),
            rows@.map_values(|x: Result<Vec<String>, csv::Error>| read_row(x)) == all,
            all == csv_rows(bytes@),
            file_view(*file) == Some(bytes@),
            read == (|r: Record| memcpy_row(r)),
            table_of(all, read, i as int) == Ok::<
                Map<(CudaMemcpyKind, usize), Duration>,
                LoadErrorView,
            >(t@),
            t.distinct(),
        decreases rows@.len() - i,
    {
        assert(all[i as int] == read_row(rows@[i as int]));
        let next = match &rows[i] {
            Err(_) => Err(LoadError::Csv),
            Ok(fields) => read_memcpy_row(fields),
        };
        match next {
            Err(e) => {
                proof {
                    lemma_table_stuck(all, read, i + 1, all.len() as int);
                }
                return Err(e);
            },
            Ok((k, v)) => t.insert(k, v),
        }
        i += 1;
    }
    Ok(t)
}

fn load_flash(file: &Option<Vec<u8>>) -> (r: Result<Table<FlashAttnKey, Duration>, LoadError>)
    ensures
        match r {
            Ok(t) => table_in(file_view(*file), |r: Record| flash_row(r)) == Ok::<
                Map<FlashAttnKey, Duration>,
                LoadErrorView,
            >(t@) && t.distinct(),
            Err(e) => table_in(file_view(*file), |r: Record| flash_row(r)) == Err::<
                Map<FlashAttnKey, Duration>,
                LoadErrorView,
            >(e@),
        },
{
    let ghost read = |r: Record| flash_row(r);
    let mut t: Table<FlashAttnKey, Duration> = Table::new();
    let bytes = match file {
        None => {
            return Ok(t);
        },
        Some(bytes) => bytes,
    };
    let rows = read_records(bytes);
    let ghost all = csv_rows(bytes@);
    let mut i: usize = 0;
    while i < rows.len()
        invariant
            i <= rows@.len(),
            rows@.map_values(|x: Result<Vec<String>, csv::Error>| read_row(x)) == all,
            all == csv_rows(bytes@),
            file_view(*file) == Some(bytes@),
            read == (|r: Record| flash_row(r)),
            table_of(all, read, i as int) == Ok::<Map<FlashAttnKey, Duration>, LoadErrorView>(t@),
            t.distinct(),
        decreases rows@.len() - i,
    {
        assert(all[i as int] == read_row(rows@[i as int]));
        let next = match &rows[i] {
            Err(_) => Err(LoadError::Csv),
            Ok(fields) => read_flash_row(fields),
        };
        match next {
            Err(e) => {
                proof {
                    lemma_table_stuck(all, read, i + 1, all.len() as int);
                }
                return Err(e);
            },
            Ok((k, v)) => t.insert(k, v),
        }
        i += 1;
    }
    Ok(t)
}

fn load_sequence(file: &Option<Vec<u8>>) -> (r: Result<Table<u64, Vec<Duration>>, LoadError>)
    ensures
        match r {
            Ok(t) => table_in(file_view(*file), |r: Record| sequence_row(r)) == Ok::<
                Map<u64, Seq<Duration>>,
                LoadErrorView,
            >(t@) && t.distinct(),
            Err(e) => table_in(file_view(*file), |r: Record| sequence_row(r)) == Err::<
                Map<u64, Seq<Duration>>,
                LoadErrorView,
            >(e@),
        },
{
    let ghost read = |r: Record| sequence_row(r);
    let mut t: Table<u64, Vec<Duration>> = Table::new();
    let bytes = match file {
        None => {
            return Ok(t);
        },
        Some(bytes) => bytes,
    };
    let rows = read_records(bytes);
    let ghost all = csv_rows(bytes@);
    let mut i: usize = 0;
    while i < rows.len()
        invariant
            i <= rows@.len(),
            rows@.map_values(|x: Result<Vec<String>, csv::Error>| read_row(x)) == all,
            all == csv_rows(bytes@),
            file_view(*file) == Some(bytes@),
            read == (|r: Record| sequence_row(r)),
            table_of(all, read, i as int) == Ok::<Map<u64, Seq<Duration>>, LoadErrorView>(t@),
            t.distinct(),
        decreases rows@.len() - i,
    {
        assert(all[i as int] == read_row(rows@[i as int]));
        let next = match &rows[i] {
            Err(_) => Err(LoadError::Csv),
            Ok(fields) => read_sequence_row(fields),
        };
        match next {
            Err(e) => {
                proof {
                    lemma_table_stuck(all, read, i + 1, all.len() as int);
                }
                return Err(e);
            },
            Ok((k, v)) => t.insert(k, v),
        }
        i += 1;
    }
    Ok(t)
}

impl PerfDb {
    /// Reads a database from its files. It can be written again.
    pub fn load(files: &DbFiles) -> (r: Result<PerfDb, LoadError>)
        ensures
            match r {
                Ok(db) => loaded(files@) == Ok::<DbView, LoadErrorView>(db@) && db.well_formed()
                    && db.distinct(),
                Err(e) => loaded(files@) == Err::<DbView, LoadErrorView>(e@),
            },
    {
        let compute = match load_compute(&files.compute) {
            Ok(t) => t,
            Err(e) => {
                return Err(e);
            },
        };
        let memcpy = match load_memcpy(&files.memcpy) {
            Ok(t) => t,
            Err(e) => {
                return Err(e);
            },
        };
        let flash_attn = match load_flash(&files.flash_attn) {
            Ok(t) => t,
            Err(e) => {
                return Err(e);
            },
        };
        let sequence = match load_sequence(&files.sequence) {
            Ok(t) => t,
            Err(e) => {
                return Err(e);
            },
        };
        let gpu_name = match &files.manifest {
            Some(text) => read_manifest(text.as_str()),
            None => String::new(),
        };
        Ok(PerfDb { gpu_name, compute, sequence, memcpy, flash_attn })
    }
}

/// Whether some rows are read as a table: each has a key of the table and its value,
/// and each key has a row.
spec fn covers<K, V>(
    rows: Seq<Record>,
    read: spec_fn(Record) -> Result<(K, V), LoadErrorView>,
    m: Map<K, V>,
) -> bool {
    &&& forall|i: int|
        0 <= i < rows.len() ==> match read(#[trigger] rows[i]) {
            Ok((k, v)) => m.contains_key(k) && m[k] == v,
            Err(_) => false,
        }
    &&& forall|k: K| #[trigger]
        m.contains_key(k) ==> exists|i: int|
            0 <= i < rows.len() && read(#[trigger] rows[i]) == Ok::<(K, V), LoadErrorView>((k, m[k]))
}

proof fn lemma_table_part<K, V>(
    rows: Seq<Record>,
    read: spec_fn(Record) -> Result<(K, V), LoadErrorView>,
    m: Map<K, V>,
    n: int,
)
    requires
        covers(rows, read, m),
        0 <= n <= rows.len(),
    ensures
        table_of(all_read(rows), read, n) matches Ok(p) && p.submap_of(m) && forall|i: int|
            0 <= i < n ==> p.contains_key((read(#[trigger] rows[i])->Ok_0).0),
    decreases n,
{
    if n > 0 {
        lemma_table_part(rows, read, m, n - 1);
        let before = table_of(all_read(rows), read, n - 1)->Ok_0;
        assert(all_read(rows)[n - 1] == Some(rows[n - 1]));
        let (k, v) = read(rows[n - 1])->Ok_0;
        assert(m.contains_key(k) && m[k] == v);
        let after = before.insert(k, v);
        assert(table_of(all_read(rows), read, n) == Ok::<Map<K, V>, LoadErrorView>(after));
        assert(after.submap_of(m));
    }
}

/// A table is read back from rows that cover it.
proof fn lemma_table_back<K, V>(
    rows: Seq<Record>,
    read: spec_fn(Record) -> Result<(K, V), LoadErrorView>,
    m: Map<K, V>,
)
    requires
        covers(rows, read, m),
    ensures
        table_of(all_read(rows), read, rows.len() as int) == Ok::<Map<K, V>, LoadErrorView>(m),
{
    let n = rows.len() as int;
    lemma_table_part(rows, read, m, n);
    let p = table_of(all_read(rows), read, n)->Ok_0;
    assert(p =~= m) by {
        assert forall|k: K| m.contains_key(k) implies p.contains_key(k) by {
            let i = choose|i: int|
                0 <= i < rows.len() && read(#[trigger] rows[i]) == Ok::<(K, V), LoadErrorView>(
                    (k, m[k]),
                );
            assert(p.contains_key((read(rows[i])->Ok_0).0));
        }
    }
}

/// The records of a table: its header and its rows in order.
pub open spec fn table_records<T: Ranked>(
    header: Record,
    rows: Seq<T::V>,
    fields: spec_fn(T::V) -> Record,
) -> Seq<Record> {
    seq![header] + in_order::<T>(rows).map_values(fields)
}

/// The header of the table of calls.
pub open spec fn compute_header() -> Record {
    seq!["key"@, "nanos"@]
}

/// The rows of the table of calls with some keys.
pub open spec fn compute_rows(
    keys: Seq<CallView>,
    m: Map<CallView, Duration>,
) -> Seq<(Seq<char>, u64)> {
    keys.map_values(|k: CallView| (key_text(k), m[k].nanos))
}

/// The records of the table of calls with some keys.
pub open spec fn compute_records(
    keys: Seq<CallView>,
    m: Map<CallView, Duration>,
) -> Seq<Record> {
    table_records::<ComputeRow>(
        compute_header(),
        compute_rows(keys, m),
        |row: (Seq<char>, u64)| compute_fields(row),
    )
}

/// Writes the table of calls.
fn save_compute(t: &Table<TorchCallInfo, Duration>) -> (bytes: Vec<u8>)
    requires
        all_valid(t@),
    ensures
        bytes@ == csv_bytes(compute_records(t.keys(), t@)),
        table_in(Some(bytes@), |r: Record| compute_row(r)) == Ok::<
            Map<CallView, Duration>,
            LoadErrorView,
        >(t@),
{
    let ghost keys = t.keys();
    let ghost m = t@;
    let ghost all = compute_rows(keys, m);
    let ghost fields = |row: (Seq<char>, u64)| compute_fields(row);
    let mut rows: Vec<ComputeRow> = Vec::new();
    let mut i: usize = 0;
    assert(views(rows@) =~= all.take(0));
    while i < t.len()
        invariant
            i <= keys.len(),
            keys == t.keys(),
            m == t@,
            all == compute_rows(keys, m),
            all_valid(t@),
            views(rows@) == all.take(i as int),
            forall|j: int|
                0 <= j < i ==> key_call((#[trigger] views(rows@)[j]).0) == Ok::<
                    CallView,
                    LoadErrorView,
                >(keys[j]),
        decreases keys.len() - i,
    {
        let key = t.key_at(i);
        if let Some(value) = t.get(key) {
            let ghost prev = rows@;
            let text = write_key(key);
            rows.push(ComputeRow { key: text, nanos: value.as_nanos() });
            assert(views(rows@) =~= views(prev).push(all[i as int]));
            assert(views(rows@) =~= all.take(i + 1));
        }
        i += 1;
    }
    assert(views(rows@) =~= all);
    let sorted = sort_rows(rows);
    let ghost order = views(sorted@);
    let ghost given = sorted@;
    let mut header: Vec<String> = Vec::new();
    header.push("key".to_owned());
    header.push("nanos".to_owned());
    assert(record(header@) =~= compute_header());
    let mut out: Vec<Vec<String>> = Vec::new();
    out.push(header);
    assert(records(out@) =~= seq![compute_header()] + order.take(0).map_values(fields));
    for row in it: sorted
        invariant
            it.seq() == given,
            order == views(given),
            fields == (|row: (Seq<char>, u64)| compute_fields(row)),
            records(out@) == seq![compute_header()] + order.take(it.index()).map_values(fields),
    {
        let ghost prev = out@;
        let r = write_compute_row(row);
        let ghost rec = record(r@);
        out.push(r);
        proof {
            assert(records(out@) =~= records(prev).push(rec));
            assert(order.take(it.index() + 1) =~= order.take(it.index()).push(row@));
            assert(records(out@) =~= seq![compute_header()] + order.take(it.index() + 1).map_values(
                fields,
            ));
        }
    }
    assert(order.take(order.len() as int) =~= order);
    let ghost recs = records(out@);
    proof {
        reveal_strlit("key");
        assert(compute_header()[0] == "key"@);
        assert("key"@[0] == 'k');
        assert(is_table(recs)) by {
            assert forall|i: int| 0 <= i < recs.len() implies (#[trigger] recs[i]).len()
                == recs[0].len() by {
                if i > 0 {
                    assert(recs[i] == compute_fields(order[i - 1]));
                }
            }
        }
    }
    let bytes = write_table(&out);
    proof {
        let body = recs.skip(1);
        let read = |r: Record| compute_row(r);
        law_sort_keeps_items::<ComputeRow>(all);
        t.lemma_keys();
        assert(body =~= order.map_values(fields));
        assert(covers(body, read, m)) by {
            assert forall|i: int| 0 <= i < body.len() implies match read(#[trigger] body[i]) {
                Ok((k, v)) => m.contains_key(k) && m[k] == v,
                Err(_) => false,
            } by {
                assert(order.contains(order[i]));
                let j = choose|j: int| 0 <= j < all.len() && all[j] == order[i];
                assert(keys.contains(keys[j]));
                assert(body[i] == compute_fields(all[j]));
                law_compute_row_read_back(all[j].0, all[j].1, keys[j]);
            }
            assert forall|k: CallView| #[trigger] m.contains_key(k) implies exists|i: int|
                0 <= i < body.len() && read(#[trigger] body[i]) == Ok::<
                    (CallView, Duration),
                    LoadErrorView,
                >((k, m[k])) by {
                assert(keys.contains(k));
                let j = choose|j: int| 0 <= j < keys.len() && keys[j] == k;
                assert(all.contains(all[j]));
                assert(order.contains(all[j]));
                let i = choose|i: int| 0 <= i < order.len() && order[i] == all[j];
                assert(body[i] == compute_fields(all[j]));
                law_compute_row_read_back(all[j].0, all[j].1, keys[j]);
                assert(read(body[i]) == Ok::<(CallView, Duration), LoadErrorView>((k, m[k])));
            }
        }
        lemma_table_back(body, read, m);
        assert(all_read(body).len() == body.len());
    }
    bytes
}

/// The header of the table of copies.
pub open spec fn memcpy_header() -> Record {
    seq!["kind"@, "size_bytes"@, "nanos"@]
}

/// The rows of the table of copies with some keys.
pub open spec fn memcpy_rows(
    keys: Seq<(CudaMemcpyKind, usize)>,
    m: Map<(CudaMemcpyKind, usize), Duration>,
) -> Seq<MemcpyRow> {
    keys.map_values(|k: (CudaMemcpyKind, usize)| MemcpyRow { kind: k.0, size: k.1, nanos: m[k].nanos })
}

/// The records of the table of copies with some keys.
pub open spec fn memcpy_records(
    keys: Seq<(CudaMemcpyKind, usize)>,
    m: Map<(CudaMemcpyKind, usize), Duration>,
) -> Seq<Record> {
    table_records::<MemcpyRow>(
        memcpy_header(),
        memcpy_rows(keys, m),
        |row: MemcpyRow| memcpy_fields(row),
    )
}

/// Writes the table of copies.
fn save_memcpy(t: &Table<(CudaMemcpyKind, usize), Duration>) -> (bytes: Vec<u8>)
    ensures
        bytes@ == csv_bytes(memcpy_records(t.keys(), t@)),
        table_in(Some(bytes@), |r: Record| memcpy_row(r)) == Ok::<
            Map<(CudaMemcpyKind, usize), Duration>,
            LoadErrorView,
        >(t@),
{
    let ghost keys = t.keys();
    let ghost m = t@;
    let ghost all = memcpy_rows(keys, m);
    let ghost fields = |row: MemcpyRow| memcpy_fields(row);
    let mut rows: Vec<MemcpyRow> = Vec::new();
    let mut i: usize = 0;
    assert(views(rows@) =~= all.take(0));
    while i < t.len()
        invariant
            i <= keys.len(),
            keys == t.keys(),
            m == t@,
            all == memcpy_rows(keys, m),
            views(rows@) == all.take(i as int),
        decreases keys.len() - i,
    {
        let key = t.key_at(i);
        if let Some(value) = t.get(key) {
            let ghost prev = rows@;
            rows.push(MemcpyRow { kind: key.0, size: key.1, nanos: value.as_nanos() });
            assert(views(rows@) =~= views(prev).push(all[i as int]));
            assert(views(rows@) =~= all.take(i + 1));
        }
        i += 1;
    }
    assert(views(rows@) =~= all);
    let sorted = sort_rows(rows);
    let ghost order = views(sorted@);
    let ghost given = sorted@;
    let mut header: Vec<String> = Vec::new();
    header.push("kind".to_owned());
    header.push("size_bytes".to_owned());
    header.push("nanos".to_owned());
    assert(record(header@) =~= memcpy_header());
    let mut out: Vec<Vec<String>> = Vec::new();
    out.push(header);
    assert(records(out@) =~= seq![memcpy_header()] + order.take(0).map_values(fields));
    for row in it: sorted
        invariant
            it.seq() == given,
            order == views(given),
            fields == (|row: MemcpyRow| memcpy_fields(row)),
            records(out@) == seq![memcpy_header()] + order.take(it.index()).map_values(fields),
    {
        let ghost prev = out@;
        let r = write_memcpy_row(row);
        let ghost rec = record(r@);
        out.push(r);
        proof {
            assert(records(out@) =~= records(prev).push(rec));
            assert(order.take(it.index() + 1) =~= order.take(it.index()).push(row@));
            assert(records(out@) =~= seq![memcpy_header()] + order.take(it.index() + 1).map_values(
                fields,
            ));
        }
    }
    assert(order.take(order.len() as int) =~= order);
    let ghost recs = records(out@);
    proof {
        reveal_strlit("kind");
        assert(memcpy_header()[0] == "kind"@);
        assert("kind"@[0] == 'k');
        assert(is_table(recs)) by {
            assert forall|i: int| 0 <= i < recs.len() implies (#[trigger] recs[i]).len()
                == recs[0].len() by {
                if i > 0 {
                    assert(recs[i] == memcpy_fields(order[i - 1]));
                }
            }
        }
    }
    let bytes = write_table(&out);
    proof {
        let body = recs.skip(1);
        let read = |r: Record| memcpy_row(r);
        law_sort_keeps_items::<MemcpyRow>(all);
        t.lemma_keys();
        assert(body =~= order.map_values(fields));
        assert(covers(body, read, m)) by {
            assert forall|i: int| 0 <= i < body.len() implies match read(#[trigger] body[i]) {
                Ok((k, v)) => m.contains_key(k) && m[k] == v,
                Err(_) => false,
            } by {
                assert(order.contains(order[i]));
                let j = choose|j: int| 0 <= j < all.len() && all[j] == order[i];
                assert(keys.contains(keys[j]));
                assert(body[i] == memcpy_fields(all[j]));
                law_memcpy_row_read_back(all[j]);
            }
            assert forall|k: (CudaMemcpyKind, usize)| #[trigger] m.contains_key(k) implies exists|i: int|
                0 <= i < body.len() && read(#[trigger] body[i]) == Ok::<
                    ((CudaMemcpyKind, usize), Duration),
                    LoadErrorView,
                >((k, m[k])) by {
                assert(keys.contains(k));
                let j = choose|j: int| 0 <= j < keys.len() && keys[j] == k;
                assert(all.contains(all[j]));
                assert(order.contains(all[j]));
                let i = choose|i: int| 0 <= i < order.len() && order[i] == all[j];
                assert(body[i] == memcpy_fields(all[j]));
                law_memcpy_row_read_back(all[j]);
                assert(read(body[i]) == Ok::<((CudaMemcpyKind, usize), Duration), LoadErrorView>((k, m[k])));
            }
        }
        lemma_table_back(body, read, m);
        assert(all_read(body).len() == body.len());
    }
    bytes
}

/// The header of the table of flash-attention kernels.
pub open spec fn flash_header() -> Record {
    seq!["is_fwd"@, "is_bf16"@, "batch"@, "seqlen_q"@, "seqlen_k"@, "num_heads"@, "num_heads_k"@, "head_size"@, "win_left"@, "win_right"@, "is_causal"@, "nanos"@]
}

/// The rows of the table of flash-attention kernels with some keys.
pub open spec fn flash_rows(
    keys: Seq<FlashAttnKey>,
    m: Map<FlashAttnKey, Duration>,
) -> Seq<FlashRow> {
    keys.map_values(|k: FlashAttnKey| FlashRow { key: k, nanos: m[k].nanos })
}

/// The records of the table of flash-attention kernels with some keys.
pub open spec fn flash_records(
    keys: Seq<FlashAttnKey>,
    m: Map<FlashAttnKey, Duration>,
) -> Seq<Record> {
    table_records::<FlashRow>(
        flash_header(),
        flash_rows(keys, m),
        |row: FlashRow| flash_fields(row),
    )
}

/// Writes the table of flash-attention kernels.
fn save_flash(t: &Table<FlashAttnKey, Duration>) -> (bytes: Vec<u8>)
    ensures
        bytes@ == csv_bytes(flash_records(t.keys(), t@)),
        table_in(Some(bytes@), |r: Record| flash_row(r)) == Ok::<
            Map<FlashAttnKey, Duration>,
            LoadErrorView,
        >(t@),
{
    let ghost keys = t.keys();
    let ghost m = t@;
    let ghost all = flash_rows(keys, m);
    let ghost fields = |row: FlashRow| flash_fields(row);
    let mut rows: Vec<FlashRow> = Vec::new();
    let mut i: usize = 0;
    assert(views(rows@) =~= all.take(0));
    while i < t.len()
        invariant
            i <= keys.len(),
            keys == t.keys(),
            m == t@,
            all == flash_rows(keys, m),
            views(rows@) == all.take(i as int),
        decreases keys.len() - i,
    {
        let key = t.key_at(i);
        if let Some(value) = t.get(key) {
            let ghost prev = rows@;
            rows.push(FlashRow { key: *key, nanos: value.as_nanos() });
            assert(views(rows@) =~= views(prev).push(all[i as int]));
            assert(views(rows@) =~= all.take(i + 1));
        }
        i += 1;
    }
    assert(views(rows@) =~= all);
    let sorted = sort_rows(rows);
    let ghost order = views(sorted@);
    let ghost given = sorted@;
    let mut header: Vec<String> = Vec::new();
    header.push("is_fwd".to_owned());
    header.push("is_bf16".to_owned());
    header.push("batch".to_owned());
    header.push("seqlen_q".to_owned());
    header.push("seqlen_k".to_owned());
    header.push("num_heads".to_owned());
    header.push("num_heads_k".to_owned());
    header.push("head_size".to_owned());
    header.push("win_left".to_owned());
    header.push("win_right".to_owned());
    header.push("is_causal".to_owned());
    header.push("nanos".to_owned());
    assert(record(header@) =~= flash_header());
    let mut out: Vec<Vec<String>> = Vec::new();
    out.push(header);
    assert(records(out@) =~= seq![flash_header()] + order.take(0).map_values(fields));
    for row in it: sorted
        invariant
            it.seq() == given,
            order == views(given),
            fields == (|row: FlashRow| flash_fields(row)),
            records(out@) == seq![flash_header()] + order.take(it.index()).map_values(fields),
    {
        let ghost prev = out@;
        let r = write_flash_row(row);
        let ghost rec = record(r@);
        out.push(r);
        proof {
            assert(records(out@) =~= records(prev).push(rec));
            assert(order.take(it.index() + 1) =~= order.take(it.index()).push(row@));
            assert(records(out@) =~= seq![flash_header()] + order.take(it.index() + 1).map_values(
                fields,
            ));
        }
    }
    assert(order.take(order.len() as int) =~= order);
    let ghost recs = records(out@);
    proof {
        reveal_strlit("is_fwd");
        assert(flash_header()[0] == "is_fwd"@);
        assert("is_fwd"@[0] == 'i');
        assert(is_table(recs)) by {
            assert forall|i: int| 0 <= i < recs.len() implies (#[trigger] recs[i]).len()
                == recs[0].len() by {
                if i > 0 {
                    assert(recs[i] == flash_fields(order[i - 1]));
                }
            }
        }
    }
    let bytes = write_table(&out);
    proof {
        let body = recs.skip(1);
        let read = |r: Record| flash_row(r);
        law_sort_keeps_items::<FlashRow>(all);
        t.lemma_keys();
        assert(body =~= order.map_values(fields));
        assert(covers(body, read, m)) by {
            assert forall|i: int| 0 <= i < body.len() implies match read(#[trigger] body[i]) {
                Ok((k, v)) => m.contains_key(k) && m[k] == v,
                Err(_) => false,
            } by {
                assert(order.contains(order[i]));
                let j = choose|j: int| 0 <= j < all.len() && all[j] == order[i];
                assert(keys.contains(keys[j]));
                assert(body[i] == flash_fields(all[j]));
                law_flash_row_read_back(all[j]);
            }
            assert forall|k: FlashAttnKey| #[trigger] m.contains_key(k) implies exists|i: int|
                0 <= i < body.len() && read(#[trigger] body[i]) == Ok::<
                    (FlashAttnKey, Duration),
                    LoadErrorView,
                >((k, m[k])) by {
                assert(keys.contains(k));
                let j = choose|j: int| 0 <= j < keys.len() && keys[j] == k;
                assert(all.contains(all[j]));
                assert(order.contains(all[j]));
                let i = choose|i: int| 0 <= i < order.len() && order[i] == all[j];
                assert(body[i] == flash_fields(all[j]));
                law_flash_row_read_back(all[j]);
                assert(read(body[i]) == Ok::<(FlashAttnKey, Duration), LoadErrorView>((k, m[k])));
            }
        }
        lemma_table_back(body, read, m);
        assert(all_read(body).len() == body.len());
    }
    bytes
}

/// The header of the table of runs of calls.
pub open spec fn sequence_header() -> Record {
    seq!["seq_hash"@, "nanos"@]
}

/// The rows of the table of runs of calls with some keys.
pub open spec fn sequence_rows(
    keys: Seq<u64>,
    m: Map<u64, Seq<Duration>>,
) -> Seq<(u64, Seq<Duration>)> {
    keys.map_values(|k: u64| (k, m[k]))
}

/// The records of the table of runs of calls with some keys.
pub open spec fn sequence_records(
    keys: Seq<u64>,
    m: Map<u64, Seq<Duration>>,
) -> Seq<Record> {
    table_records::<SequenceRow>(
        sequence_header(),
        sequence_rows(keys, m),
        |row: (u64, Seq<Duration>)| sequence_fields(row),
    )
}

/// Writes the table of runs of calls.
fn save_sequence(t: &Table<u64, Vec<Duration>>) -> (bytes: Vec<u8>)
    ensures
        bytes@ == csv_bytes(sequence_records(t.keys(), t@)),
        table_in(Some(bytes@), |r: Record| sequence_row(r)) == Ok::<
            Map<u64, Seq<Duration>>,
            LoadErrorView,
        >(t@),
{
    let ghost keys = t.keys();
    let ghost m = t@;
    let ghost all = sequence_rows(keys, m);
    let ghost fields = |row: (u64, Seq<Duration>)| sequence_fields(row);
    let mut rows: Vec<SequenceRow> = Vec::new();
    let mut i: usize = 0;
    assert(views(rows@) =~= all.take(0));
    while i < t.len()
        invariant
            i <= keys.len(),
            keys == t.keys(),
            m == t@,
            all == sequence_rows(keys, m),
            views(rows@) == all.take(i as int),
        decreases keys.len() - i,
    {
        let key = t.key_at(i);
        if let Some(value) = t.get(key) {
            let ghost prev = rows@;
            let times = value.clone();
            assert(times@ =~= value@);
            rows.push(SequenceRow { hash: *key, times });
            assert(views(rows@) =~= views(prev).push(all[i as int]));
            assert(views(rows@) =~= all.take(i + 1));
        }
        i += 1;
    }
    assert(views(rows@) =~= all);
    let sorted = sort_rows(rows);
    let ghost order = views(sorted@);
    let ghost given = sorted@;
    let mut header: Vec<String> = Vec::new();
    header.push("seq_hash".to_owned());
    header.push("nanos".to_owned());
    assert(record(header@) =~= sequence_header());
    let mut out: Vec<Vec<String>> = Vec::new();
    out.push(header);
    assert(records(out@) =~= seq![sequence_header()] + order.take(0).map_values(fields));
    for row in it: sorted
        invariant
            it.seq() == given,
            order == views(given),
            fields == (|row: (u64, Seq<Duration>)| sequence_fields(row)),
            records(out@) == seq![sequence_header()] + order.take(it.index()).map_values(fields),
    {
        let ghost prev = out@;
        let r = write_sequence_row(row);
        let ghost rec = record(r@);
        out.push(r);
        proof {
            assert(records(out@) =~= records(prev).push(rec));
            assert(order.take(it.index() + 1) =~= order.take(it.index()).push(row@));
            assert(records(out@) =~= seq![sequence_header()] + order.take(it.index() + 1).map_values(
                fields,
            ));
        }
    }
    assert(order.take(order.len() as int) =~= order);
    let ghost recs = records(out@);
    proof {
        reveal_strlit("seq_hash");
        assert(sequence_header()[0] == "seq_hash"@);
        assert("seq_hash"@[0] == 's');
        assert(is_table(recs)) by {
            assert forall|i: int| 0 <= i < recs.len() implies (#[trigger] recs[i]).len()
                == recs[0].len() by {
                if i > 0 {
                    assert(recs[i] == sequence_fields(order[i - 1]));
                }
            }
        }
    }
    let bytes = write_table(&out);
    proof {
        let body = recs.skip(1);
        let read = |r: Record| sequence_row(r);
        law_sort_keeps_items::<SequenceRow>(all);
        t.lemma_keys();
        assert(body =~= order.map_values(fields));
        assert(covers(body, read, m)) by {
            assert forall|i: int| 0 <= i < body.len() implies match read(#[trigger] body[i]) {
                Ok((k, v)) => m.contains_key(k) && m[k] == v,
                Err(_) => false,
            } by {
                assert(order.contains(order[i]));
                let j = choose|j: int| 0 <= j < all.len() && all[j] == order[i];
                assert(keys.contains(keys[j]));
                assert(body[i] == sequence_fields(all[j]));
                law_sequence_row_read_back(all[j].0, all[j].1);
            }
            assert forall|k: u64| #[trigger] m.contains_key(k) implies exists|i: int|
                0 <= i < body.len() && read(#[trigger] body[i]) == Ok::<
                    (u64, Seq<Duration>),
                    LoadErrorView,
                >((k, m[k])) by {
                assert(keys.contains(k));
                let j = choose|j: int| 0 <= j < keys.len() && keys[j] == k;
                assert(all.contains(all[j]));
                assert(order.contains(all[j]));
                let i = choose|i: int| 0 <= i < order.len() && order[i] == all[j];
                assert(body[i] == sequence_fields(all[j]));
                law_sequence_row_read_back(all[j].0, all[j].1);
                assert(read(body[i]) == Ok::<(u64, Seq<Duration>), LoadErrorView>((k, m[k])));
            }
        }
        lemma_table_back(body, read, m);
        assert(all_read(body).len() == body.len());
    }
    bytes
}

/// The bytes of a table, unless it is empty.
pub open spec fn unless_empty(keys: nat, rows: Seq<Record>) -> Option<Seq<u8>> {
    if keys == 0 {
        None
    } else {
        Some(csv_bytes(rows))
    }
}

impl PerfDb {
    /// Whether every key has one row in its table.
    pub open spec fn distinct(&self) -> bool {
        &&& self.compute.distinct()
        &&& self.sequence.distinct()
        &&& self.memcpy.distinct()
        &&& self.flash_attn.distinct()
    }

    /// Whether every recorded call has the arguments that its operator takes.
    pub open spec fn well_formed(&self) -> bool {
        all_valid(self.compute@)
    }

    /// Whether every recorded call has the arguments that its operator takes.
    pub fn is_well_formed(&self) -> (b: bool)
        ensures
            b == self.well_formed(),
    {
        let ghost keys = self.compute.keys();
        proof {
            self.compute.lemma_keys();
        }
        let mut i: usize = 0;
        while i < self.compute.len()
            invariant
                i <= keys.len(),
                keys == self.compute.keys(),
                forall|k: CallView|
                    #[trigger] self.compute@.contains_key(k) <==> keys.contains(k),
                forall|j: int| 0 <= j < i ==> valid_call(#[trigger] keys[j]),
            decreases keys.len() - i,
        {
            let key = self.compute.key_at(i);
            if !is_well_typed(key) {
                return false;
            }
            proof {
                lemma_held_call(*key);
            }
            i += 1;
        }
        true
    }

    /// Writes a database to its files. The tables of flash-attention kernels and of runs
    /// of calls are left out where they are empty. The tables are read back from the
    /// files, and so is the name of the GPU, without the white space around it, unless it
    /// has a line end in it.
    pub fn save(&self) -> (files: DbFiles)
        requires
            self.well_formed(),
        ensures
            files@ == (FilesView {
                compute: Some(csv_bytes(compute_records(self.compute.keys(), self.compute@))),
                memcpy: Some(csv_bytes(memcpy_records(self.memcpy.keys(), self.memcpy@))),
                flash_attn: unless_empty(
                    self.flash_attn.keys().len(),
                    flash_records(self.flash_attn.keys(), self.flash_attn@),
                ),
                sequence: unless_empty(
                    self.sequence.keys().len(),
                    sequence_records(self.sequence.keys(), self.sequence@),
                ),
                manifest: Some(
                    manifest_text(
                        self.gpu_name@,
                        self.compute.keys().len(),
                        self.sequence.keys().len(),
                        self.memcpy.keys().len(),
                        self.flash_attn.keys().len(),
                    ),
                ),
            }),
            loaded(files@) matches Ok(db) && db == (DbView { gpu_name: db.gpu_name, ..self@ }),
            free_of(self.gpu_name@, '\n') ==> loaded(files@) == Ok::<DbView, LoadErrorView>(
                DbView { gpu_name: trimmed(self.gpu_name@), ..self@ },
            ),
            free_of(self.gpu_name@, '\n') && trimmed(self.gpu_name@) == self.gpu_name@ ==> loaded(
                files@,
            ) == Ok::<DbView, LoadErrorView>(self@),
    {
        let compute = save_compute(&self.compute);
        let memcpy = save_memcpy(&self.memcpy);
        let flash_attn = if self.flash_attn.len() == 0 {
            proof {
                self.flash_attn.lemma_keys();
                assert(self.flash_attn@ =~= Map::empty());
            }
            None
        } else {
            Some(save_flash(&self.flash_attn))
        };
        let sequence = if self.sequence.len() == 0 {
            proof {
                self.sequence.lemma_keys();
                assert(self.sequence@ =~= Map::empty());
            }
            None
        } else {
            Some(save_sequence(&self.sequence))
        };
        let manifest = write_manifest(
            self.gpu_name.as_str(),
            self.compute.len(),
            self.sequence.len(),
            self.memcpy.len(),
            self.flash_attn.len(),
        );
        proof {
            if free_of(self.gpu_name@, '\n') {
                law_gpu_read_back(
                    self.gpu_name@,
                    self.compute.keys().len(),
                    self.sequence.keys().len(),
                    self.memcpy.keys().len(),
                    self.flash_attn.keys().len(),
                );
            }
        }
        DbFiles {
            compute: Some(compute),
            memcpy: Some(memcpy),
            flash_attn,
            sequence,
            manifest: Some(manifest),
        }
    }
}

proof fn lemma_keys_alike<K: MapKey, V: View>(a: Table<K, V>, b: Table<K, V>)
    requires
        a@ == b@,
        a.distinct(),
        b.distinct(),
    ensures
        a.keys().to_multiset() == b.keys().to_multiset(),
        a.keys().len() == b.keys().len(),
{
    a.lemma_keys();
    b.lemma_keys();
    assert forall|k: K::V| a.keys().contains(k) <==> b.keys().contains(k) by {
        assert(a@.contains_key(k) <==> a.keys().contains(k));
        assert(b@.contains_key(k) <==> b.keys().contains(k));
    }
    lemma_same_items(a.keys(), b.keys());
}

/// What is written of a database does not depend on the order in which its entries
/// came: the tables of calls, copies and runs, and the description. Kernels that differ
/// in nothing by which they are sorted keep the order in which they came.
pub proof fn law_files_forget_order(a: PerfDb, b: PerfDb)
    requires
        a@ == b@,
        a.distinct(),
        b.distinct(),
    ensures
        compute_records(a.compute.keys(), a.compute@) == compute_records(
            b.compute.keys(),
            b.compute@,
        ),
        memcpy_records(a.memcpy.keys(), a.memcpy@) == memcpy_records(b.memcpy.keys(), b.memcpy@),
        sequence_records(a.sequence.keys(), a.sequence@) == sequence_records(
            b.sequence.keys(),
            b.sequence@,
        ),
        a.compute.keys().len() == b.compute.keys().len(),
        a.memcpy.keys().len() == b.memcpy.keys().len(),
        a.sequence.keys().len() == b.sequence.keys().len(),
        a.flash_attn.keys().len() == b.flash_attn.keys().len(),
{
    assert(a.compute@ == b.compute@ && a.memcpy@ == b.memcpy@ && a.sequence@ == b.sequence@
        && a.flash_attn@ == b.flash_attn@) by {
        assert(a@.compute == b@.compute && a@.memcpy == b@.memcpy);
        assert(a@.sequence == b@.sequence && a@.flash_attn == b@.flash_attn);
    }
    lemma_keys_alike(a.compute, b.compute);
    lemma_keys_alike(a.memcpy, b.memcpy);
    lemma_keys_alike(a.sequence, b.sequence);
    lemma_keys_alike(a.flash_attn, b.flash_attn);
    lemma_mapped_items(
        a.compute.keys(),
        b.compute.keys(),
        |k: CallView| (key_text(k), a.compute@[k].nanos),
    );
    law_compute_rows_ordered();
    law_sort_forgets_order::<ComputeRow>(
        compute_rows(a.compute.keys(), a.compute@),
        compute_rows(b.compute.keys(), b.compute@),
    );
    lemma_mapped_items(
        a.memcpy.keys(),
        b.memcpy.keys(),
        |k: (CudaMemcpyKind, usize)| MemcpyRow { kind: k.0, size: k.1, nanos: a.memcpy@[k].nanos },
    );
    law_memcpy_rows_ordered();
    law_sort_forgets_order::<MemcpyRow>(
        memcpy_rows(a.memcpy.keys(), a.memcpy@),
        memcpy_rows(b.memcpy.keys(), b.memcpy@),
    );
    lemma_mapped_items(a.sequence.keys(), b.sequence.keys(), |k: u64| (k, a.sequence@[k]));
    law_sort_forgets_order::<SequenceRow>(
        sequence_rows(a.sequence.keys(), a.sequence@),
        sequence_rows(b.sequence.keys(), b.sequence@),
    );
}

} // verus!
