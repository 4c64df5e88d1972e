//! The result sink: an append-only table whose rows all have the width of its
//! header, encoded as CSV, and the check that reads a table back.

use crate::error::ScanError;
use crate::text::{copy_strings, texts};
use vstd::prelude::*;
use vstd::string::StringExecFns;

verus! {

/// `csv::Error`, carried as it comes and looked into only through
/// [`error_text`].
#[verifier::external_type_specification]
#[verifier::external_body]
pub struct ExCsvError(csv::Error);

/// The bytes that `csv::Writer`, with its default settings, writes for one
/// record with these fields, or `None` where it reports an error.
pub uninterp spec fn record_bytes(fields: Seq<Seq<char>>) -> Option<Seq<u8>>;

/// What `csv::Reader` yields for `data` read as a table with a header line:
/// one entry for each item of `records()`, the record's fields where it is
/// `Ok` and `None` where it is an error.
pub uninterp spec fn parsed_records(data: Seq<u8>) -> Seq<Option<Seq<Seq<char>>>>;

/// Writes one record with `csv::Writer::write_record` into an empty buffer and
/// hands out the buffer. The result is that of the writer: its bytes, or its
/// error.
#[verifier::external_body]
fn encode_record(fields: &Vec<String>) -> (out: Result<Vec<u8>, csv::Error>)
    ensures
        match out {
            Ok(bytes) => record_bytes(texts(fields@)) == Some(bytes@),
            Err(_) => record_bytes(texts(fields@)) is None,
        },
{
    let mut writer = csv::Writer::from_writer(Vec::new());
    writer.write_record(fields)?;
    match writer.into_inner() {
        Ok(bytes) => Ok(bytes),
        Err(e) => Err(csv::Error::from(e.into_error())),
    }
}

/// Reads `data` with a `csv::Reader` that expects a header line and collects
/// every item of `records()`, each record as the list of its fields.
#[verifier::external_body]
fn read_records(data: &[u8]) -> (out: Vec<Result<Vec<String>, csv::Error>>)
    ensures
        out@.len() == parsed_records(data@).len(),
        forall|i: int|
            0 <= i < out@.len() ==> match #[trigger] out@[i] {
                Ok(fields) => parsed_records(data@)[i] == Some(texts(fields@)),
                Err(_) => parsed_records(data@)[i] is None,
            },
{
    let mut reader = csv::ReaderBuilder::new().has_headers(true).from_reader(data);
    let mut out = Vec::new();
    for item in reader.records() {
        out.push(
            match item {
                Ok(record) => Ok(record.iter().map(String::from).collect()),
                Err(e) => Err(e),
            },
        );
    }
    out
}

/// The text that `csv::Error` displays.
#[verifier::external_body]
fn error_text(e: &csv::Error) -> (text: String) {
    e.to_string()
}

/// A record as it came back from a table: its fields, or the reader's
/// complaint about it.
pub type ReadBack = Result<Vec<String>, String>;

/// A record read back, as the reader's outcome: the fields, or `None` for a
/// record that could not be read.
pub open spec fn outcome(r: ReadBack) -> Option<Seq<Seq<char>>> {
    match r {
        Ok(fields) => Some(texts(fields@)),
        Err(_) => None,
    }
}

/// The outcomes of the records of a table, in order.
pub open spec fn outcomes(records: Seq<ReadBack>) -> Seq<Option<Seq<Seq<char>>>> {
    records.map_values(|r: ReadBack| outcome(r))
}

/// Whether a record read back breaks a table of `width` columns.
pub open spec fn is_fault(r: Option<Seq<Seq<char>>>, width: nat) -> bool {
    match r {
        Some(fields) => fields.len() != width,
        None => true,
    }
}

/// No record before `upto` breaks the table.
pub open spec fn sound_before(records: Seq<Option<Seq<Seq<char>>>>, width: nat, upto: int) -> bool {
    forall|j: int| 0 <= j < upto && j < records.len() ==> !is_fault(#[trigger] records[j], width)
}

/// Every byte `rows` encode to, row after row; `None` where a row cannot be
/// encoded.
pub open spec fn table_bytes(rows: Seq<Seq<Seq<char>>>) -> Option<Seq<u8>>
    decreases rows.len(),
{
    if rows.len() == 0 {
        Some(Seq::<u8>::empty())
    } else {
        match (table_bytes(rows.drop_last()), record_bytes(rows.last())) {
            (Some(before), Some(last)) => Some(before + last),
            _ => None,
        }
    }
}

/// A table with a row that cannot be encoded cannot be encoded, whatever
/// follows that row.
pub proof fn lemma_table_bytes_extends(rows: Seq<Seq<Seq<char>>>, more: Seq<Seq<Seq<char>>>)
    ensures
        table_bytes(rows) is None ==> table_bytes(rows + more) is None,
    decreases more.len(),
{
    if more.len() == 0 {
        assert(rows + more == rows);
    } else {
        lemma_table_bytes_extends(rows, more.drop_last());
        assert((rows + more).drop_last() == rows + more.drop_last());
    }
}

/// The bytes of a table with one more row are those of the table, then those
/// of the row.
pub proof fn lemma_table_bytes_push(rows: Seq<Seq<Seq<char>>>, row: Seq<Seq<char>>)
    ensures
        table_bytes(rows.push(row)) == match (table_bytes(rows), record_bytes(row)) {
            (Some(before), Some(last)) => Some(before + last),
            _ => None,
        },
{
    assert(rows.push(row).drop_last() == rows);
}

/// Turns what the reader handed out into records of plain text.
fn plain_records(raw: &Vec<Result<Vec<String>, csv::Error>>) -> (out: Vec<ReadBack>)
    ensures
        out@.len() == raw@.len(),
        forall|i: int|
            0 <= i < out@.len() ==> match (#[trigger] out@[i], raw@[i]) {
                (Ok(a), Ok(b)) => a@ == b@,
                (Err(_), Err(_)) => true,
                _ => false,
            },
{
    let mut out: Vec<ReadBack> = Vec::new();
    let mut i: usize = 0;
    while i < raw.len()
        invariant
            i <= raw@.len(),
            out@.len() == i,
            forall|k: int|
                0 <= k < out@.len() ==> match (#[trigger] out@[k], raw@[k]) {
                    (Ok(a), Ok(b)) => a@ == b@,
                    (Err(_), Err(_)) => true,
                    _ => false,
                },
        decreases raw.len() - i,
    {
        let plain: ReadBack = match &raw[i] {
            Ok(fields) => Ok(copy_strings(fields)),
            Err(e) => Err(error_text(e)),
        };
        out.push(plain);
        i = i + 1;
    }
    out
}

/// Reads `data` back as a table with a header line: every data record, as
/// its fields or as the reader's complaint.
pub fn read_table(data: &[u8]) -> (records: Vec<ReadBack>)
    ensures
        outcomes(records@) == parsed_records(data@),
{
    let raw = read_records(data);
    let records = plain_records(&raw);
    assert(outcomes(records@) == parsed_records(data@));
    records
}

/// Whether `r` is what checking `records` against a table of `width` columns
/// gives: the number of records where none breaks the table, else the place
/// and kind of the first that does.
pub open spec fn verdict_fits(
    records: Seq<Option<Seq<Seq<char>>>>,
    width: nat,
    r: Result<usize, ScanError>,
) -> bool {
    match r {
        Ok(n) => n == records.len() && sound_before(records, width, records.len() as int),
        Err(e) => exists|i: int|
            0 <= i < records.len() && sound_before(records, width, i) && #[trigger] is_fault(
                records[i],
                width,
            ) && match records[i] {
                Some(fields) => e == (ScanError::Validation {
                    index: i as usize,
                    fields: fields.len() as usize,
                }),
                None => e matches ScanError::Parse { index, .. } && index == i,
            },
    }
}

/// Checks records read back against a table of `width` columns. The first
/// record that could not be read, or that has another number of fields, ends
/// the check with its position; otherwise the number of records comes back.
pub fn check_records(records: &Vec<ReadBack>, width: usize) -> (r: Result<usize, ScanError>)
    ensures
        verdict_fits(outcomes(records@), width as nat, r),
        r matches Err(ScanError::Parse { index, detail }) ==> index < records@.len()
            && records@[index as int] == Err::<Vec<String>, String>(detail),
{
    let mut i: usize = 0;
    while i < records.len()
        invariant
            i <= records@.len(),
            sound_before(outcomes(records@), width as nat, i as int),
        decreases records.len() - i,
    {
        match &records[i] {
            Ok(fields) => {
                if fields.len() != width {
                    assert(is_fault(outcomes(records@)[i as int], width as nat));
                    return Err(ScanError::Validation { index: i, fields: fields.len() });
                }
            },
            Err(detail) => {
                assert(is_fault(outcomes(records@)[i as int], width as nat));
                return Err(ScanError::Parse { index: i, detail: detail.clone() });
            },
        }
        i = i + 1;
    }
    Ok(i)
}

/// Reads `data` back as a table with a header line and checks every data
/// record against `width` columns.
pub fn validate_table(data: &[u8], width: usize) -> (r: Result<usize, ScanError>)
    ensures
        verdict_fits(parsed_records(data@), width as nat, r),
{
    let records = read_table(data);
    check_records(&records, width)
}

/// Records that all have `width` fields pass the check, and the check counts
/// every one of them.
pub proof fn lemma_uniform_rows_pass(rows: Seq<Seq<Seq<char>>>, width: nat)
    requires
        forall|i: int| 0 <= i < rows.len() ==> (#[trigger] rows[i]).len() == width,
        rows.len() <= usize::MAX,
    ensures
        verdict_fits(
            rows.map_values(|row: Seq<Seq<char>>| Some(row)),
            width,
            Ok(rows.len() as usize),
        ),
{
}

/// The table a scan phase writes: a header, then rows of the header's width.
/// The sink encodes each row for the caller to persist and keeps count; a row
/// of another width is turned away before anything is encoded.
pub struct Sink {
    header: Vec<String>,
    written: usize,
    log: Ghost<Seq<Seq<Seq<char>>>>,
}

impl Sink {
    /// The count is that of the rows, and every row has the header's width.
    pub closed spec fn wf(&self) -> bool {
        &&& self.log@.len() == self.written
        &&& forall|i: int|
            0 <= i < self.log@.len() ==> (#[trigger] self.log@[i]).len() == self.header@.len()
    }

    /// Every row of a sink has as many fields as its header.
    pub proof fn lemma_rows_fit(&self)
        requires
            self.wf(),
        ensures
            forall|i: int|
                0 <= i < self.rows().len() ==> (#[trigger] self.rows()[i]).len()
                    == self.header().len(),
    {
    }

    /// The header's fields.
    pub closed spec fn header(&self) -> Seq<Seq<char>> {
        texts(self.header@)
    }

    /// The rows accepted so far, oldest first.
    pub closed spec fn rows(&self) -> Seq<Seq<Seq<char>>> {
        self.log@
    }

    /// A table that reads back as the rows the sink accepted passes the
    /// check, and the check counts every row.
    pub proof fn lemma_read_back_passes(&self)
        requires
            self.wf(),
        ensures
            verdict_fits(
                self.rows().map_values(|row: Seq<Seq<char>>| Some(row)),
                self.header().len(),
                Ok(self.rows().len() as usize),
            ),
    {
        lemma_uniform_rows_pass(self.rows(), self.header().len());
    }

    /// Header and rows, as they stand in the persisted table.
    pub open spec fn table(&self) -> Seq<Seq<Seq<char>>> {
        seq![self.header()] + self.rows()
    }

    /// What opening a sink gives for each outcome of encoding its header.
    pub fn with_header(header: Vec<String>, encoded: Result<Vec<u8>, csv::Error>) -> (r: Result<
        (Sink, Vec<u8>),
        ScanError,
    >)
        ensures
            match r {
                Ok((sink, bytes)) => encoded == Ok::<Vec<u8>, csv::Error>(bytes) && sink.wf()
                    && sink.header() == texts(header@) && sink.rows() == Seq::<
                    Seq<Seq<char>>,
                >::empty(),
                Err(e) => encoded is Err && e is Io,
            },
    {
        match encoded {
            Ok(bytes) => Ok((Sink { header, written: 0, log: Ghost(Seq::empty()) }, bytes)),
            Err(e) => Err(ScanError::Io(error_text(&e))),
        }
    }

    /// A sink with no rows, and the bytes of its header line.
    pub fn open(header: Vec<String>) -> (r: Result<(Sink, Vec<u8>), ScanError>)
        ensures
            match r {
                Ok((sink, bytes)) => record_bytes(texts(header@)) == Some(bytes@) && sink.wf()
                    && sink.header() == texts(header@) && sink.rows() == Seq::<
                    Seq<Seq<char>>,
                >::empty(),
                Err(e) => record_bytes(texts(header@)) is None && e is Io,
            },
    {
        let encoded = encode_record(&header);
        Sink::with_header(header, encoded)
    }

    /// The number of columns.
    pub fn width(&self) -> (n: usize)
        ensures
            n == self.header().len(),
    {
        self.header.len()
    }

    /// The number of rows accepted so far.
    pub fn written(&self) -> (n: usize)
        requires
            self.wf(),
        ensures
            n == self.rows().len(),
    {
        self.written
    }

    /// What `r` has to be, and the sink to become, when a row of `fields`
    /// whose encoding came out as `encoded` is offered to the sink `before`.
    pub open spec fn accepts(
        before: Sink,
        after: Sink,
        fields: Seq<Seq<char>>,
        encoded: Option<Seq<u8>>,
        r: Result<Vec<u8>, ScanError>,
    ) -> bool {
        &&& after.wf()
        &&& after.header() == before.header()
        &&& match r {
            Ok(bytes) => {
                &&& fields.len() == before.header().len()
                &&& before.rows().len() < usize::MAX
                &&& encoded == Some(bytes@)
                &&& after.rows() == before.rows().push(fields)
            },
            Err(e) => {
                &&& after.rows() == before.rows()
                &&& if fields.len() != before.header().len() {
                    e == (ScanError::Validation {
                        index: before.rows().len() as usize,
                        fields: fields.len() as usize,
                    })
                } else if encoded is Some {
                    before.rows().len() >= usize::MAX && (e matches ScanError::Io(m) && m@
                        == "the table is full"@)
                } else {
                    e is Io
                }
            },
        }
    }

    /// Takes a row whose encoding the caller holds: the row is appended if it
    /// has the header's width and was encoded, and its bytes are handed back.
    pub fn accept(&mut self, fields: &Vec<String>, encoded: Result<Vec<u8>, csv::Error>) -> (r:
        Result<Vec<u8>, ScanError>)
        requires
            old(self).wf(),
        ensures
            Sink::accepts(
                *old(self),
                *final(self),
                texts(fields@),
                match encoded {
                    Ok(bytes) => Some(bytes@),
                    Err(_) => None,
                },
                r,
            ),
    {
        if fields.len() != self.header.len() {
            return Err(ScanError::Validation { index: self.written, fields: fields.len() });
        }
        match encoded {
            Ok(bytes) => {
                if self.written == usize::MAX {
                    return Err(ScanError::Io(String::from_str("the table is full")));
                }
                self.written = self.written + 1;
                self.log = Ghost(self.log@.push(texts(fields@)));
                Ok(bytes)
            },
            Err(e) => Err(ScanError::Io(error_text(&e))),
        }
    }

    /// Appends a row and hands back the bytes to persist for it.
    pub fn write_row(&mut self, fields: &Vec<String>) -> (r: Result<Vec<u8>, ScanError>)
        requires
            old(self).wf(),
        ensures
            Sink::accepts(*old(self), *final(self), texts(fields@), record_bytes(texts(fields@)), r),
    {
        let encoded = encode_record(fields);
        self.accept(fields, encoded)
    }

    /// Reads a persisted table back and checks it against this sink's width.
    pub fn validate(&self, data: &[u8]) -> (r: Result<usize, ScanError>)
        ensures
            verdict_fits(parsed_records(data@), self.header().len(), r),
    {
        validate_table(data, self.header.len())
    }
}

} // verus!
