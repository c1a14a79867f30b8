//! Tables as CSV, read and written with the `csv` crate.

use vstd::prelude::*;

verus! {

/// Errors of `csv`, which are opaque here.
#[verifier::external_type_specification]
#[verifier::external_body]
pub struct ExCsvError(csv::Error);

/// A writer of `csv`, which is opaque here. The records that one has written have a
/// name, see [`written`].
#[verifier::external_body]
pub struct TableWriter {
    inner: csv::Writer<Vec<u8>>,
}

/// A record: its fields in order.
pub type Record = Seq<Seq<char>>;

/// What the fields of a record stand for.
pub open spec fn record(fields: Seq<String>) -> Record {
    fields.map_values(|s: String| s@)
}

/// What some records stand for.
pub open spec fn records(rows: Seq<Vec<String>>) -> Seq<Record> {
    rows.map_values(|r: Vec<String>| record(r@))
}

/// Whether some records have the same number of fields, more than one, and the first
/// does not begin with a byte order mark.
pub open spec fn is_table(rows: Seq<Record>) -> bool {
    &&& rows.len() > 0
    &&& rows[0].len() > 1
    &&& rows[0][0].len() == 0 || rows[0][0][0] != '\u{feff}'
    &&& forall|i: int| 0 <= i < rows.len() ==> (#[trigger] rows[i]).len() == rows[0].len()
}

/// Some records, each of them read without an error.
pub open spec fn all_read(rows: Seq<Record>) -> Seq<Option<Record>> {
    rows.map_values(|r: Record| Some(r))
}

/// The records that a writer has written.
pub uninterp spec fn written(w: TableWriter) -> Seq<Record>;

/// The bytes that `csv` writes for some records.
pub uninterp spec fn csv_bytes(rows: Seq<Record>) -> Seq<u8>;

/// The records behind the first one that `csv` reads from some bytes, with nothing in
/// place of one that it cannot read.
pub uninterp spec fn csv_rows(bytes: Seq<u8>) -> Seq<Option<Record>>;

/// What a record that was read stands for.
pub open spec fn read_row(r: Result<Vec<String>, csv::Error>) -> Option<Record> {
    match r {
        Ok(fields) => Some(record(fields@)),
        Err(_) => None,
    }
}

impl TableWriter {
    /// Calls `csv::Writer::from_writer` on no bytes. Claims that nothing is written.
    #[verifier::external_body]
    fn new() -> (w: TableWriter)
        ensures
            written(w) == Seq::<Record>::empty(),
    {
        TableWriter { inner: csv::Writer::from_writer(Vec::new()) }
    }

    /// Calls `csv::Writer::write_record`. Claims that it writes the record, and does not
    /// fail, where every record has the same number of fields: writing to memory has no
    /// other way to fail.
    #[verifier::external_body]
    fn write_record(&mut self, fields: &Vec<String>)
        requires
            fields@.len() > 0,
            written(*old(self)).len() > 0 ==> fields@.len() == written(*old(self))[0].len(),
        ensures
            written(*final(self)) == written(*old(self)).push(record(fields@)),
    {
        self.inner.write_record(fields).unwrap()
    }

    /// Calls `csv::Writer::into_inner`, which does not fail on memory. Claims that the
    /// bytes depend on the records alone, and that reading them gives back all records
    /// but the first, where the records are a table.
    #[verifier::external_body]
    fn into_inner(self) -> (bytes: Vec<u8>)
        ensures
            bytes@ == csv_bytes(written(self)),
            is_table(written(self)) ==> csv_rows(bytes@) == all_read(written(self).skip(1)),
    {
        self.inner.into_inner().unwrap()
    }
}

/// Calls `csv::Reader::from_reader` and reads all records. Claims that what is read
/// depends on the bytes alone.
#[verifier::external_body]
pub(crate) fn read_records(bytes: &Vec<u8>) -> (r: Vec<Result<Vec<String>, csv::Error>>)
    ensures
        r@.map_values(|x: Result<Vec<String>, csv::Error>| read_row(x)) == csv_rows(bytes@),
{
    let reader = csv::Reader::from_reader(bytes.as_slice());
    reader.into_records().map(|r| r.map(|x| x.iter().map(String::from).collect())).collect()
}

/// Writes a table.
pub fn write_table(rows: &Vec<Vec<String>>) -> (bytes: Vec<u8>)
    requires
        is_table(records(rows@)),
    ensures
        bytes@ == csv_bytes(records(rows@)),
        csv_rows(bytes@) == all_read(records(rows@).skip(1)),
{
    let ghost all = records(rows@);
    let mut w = TableWriter::new();
    let mut i: usize = 0;
    assert(all.take(0) =~= seq![]);
    while i < rows.len()
        invariant
            i <= rows@.len(),
            all == records(rows@),
            is_table(all),
            written(w) == all.take(i as int),
        decreases rows@.len() - i,
    {
        proof {
            assert(all[i as int] == record(rows@[i as int]@));
            assert(all[i as int].len() == all[0].len());
            if i > 0 {
                assert(all.take(i as int)[0] == all[0]);
            }
        }
        w.write_record(&rows[i]);
        assert(all.take(i + 1) =~= all.take(i as int).push(all[i as int]));
        i += 1;
    }
    assert(all.take(all.len() as int) =~= all);
    w.into_inner()
}

} // verus!
