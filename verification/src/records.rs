//! CSV records and the reading of one CSV file.
use csv::{ReaderBuilder, StringRecord};
use vstd::prelude::*;

verus! {

/// `csv::StringRecord`, a record of text fields. What it holds is named by `record_cells`.
#[verifier::external_type_specification]
#[verifier::external_body]
pub struct ExStringRecord(StringRecord);

/// The cells of one row, or the column names of a header.
pub type Cells = Seq<Seq<char>>;

/// The fields that a `csv::StringRecord` holds, in order.
pub uninterp spec fn record_cells(record: StringRecord) -> Seq<Seq<char>>;

/// `csv::StringRecord::len`: the number of fields.
pub assume_specification[ StringRecord::len ](record: &StringRecord) -> (n: usize)
    ensures
        n == record_cells(*record).len(),
;

/// `csv::StringRecord::get`: the field at position `i`, or `None` past the last field.
pub assume_specification[ StringRecord::get ](record: &StringRecord, i: usize) -> (cell: Option<&str>)
    ensures
        cell is Some <==> i < record_cells(*record).len(),
        cell matches Some(text) ==> text@ == record_cells(*record)[i as int],
;

/// The cells of each of several records.
pub open spec fn rows_cells(rows: Seq<StringRecord>) -> Seq<Cells> {
    Seq::new(rows.len(), |i: int| record_cells(rows[i]))
}

/// The texts of a list of strings.
pub open spec fn texts(strings: Seq<String>) -> Cells {
    Seq::new(strings.len(), |i: int| strings[i]@)
}

/// The texts of a list of string slices.
pub open spec fn slice_texts(strings: Seq<&str>) -> Cells {
    Seq::new(strings.len(), |i: int| strings[i]@)
}

/// The fields of a record, borrowed.
pub fn fields<'a>(record: &'a StringRecord) -> (out: Vec<&'a str>)
    ensures
        slice_texts(out@) == record_cells(*record),
{
    let n: usize = record.len();
    let mut out: Vec<&'a str> = Vec::new();
    for i in 0..n
        invariant
            n == record_cells(*record).len(),
            out.len() == i,
            forall|j: int| 0 <= j < i ==> (#[trigger] out[j])@ == record_cells(*record)[j],
    {
        if let Some(cell) = record.get(i) {
            out.push(cell);
        }
    }
    assert(slice_texts(out@) =~= record_cells(*record));
    out
}

/// What the CSV parser reports of the first record of `bytes`, which is the header: its
/// column names, or the text of the error. A parser that is not `flexible` also wants all
/// records to have the same length.
pub uninterp spec fn parsed_header(bytes: Seq<u8>, flexible: bool) -> Result<Seq<Seq<char>>, Seq<char>>;

/// What the CSV parser reports of the records of `bytes` after the header, in order: the
/// cells of each, or the text of the error.
pub uninterp spec fn parsed_records(bytes: Seq<u8>, flexible: bool) -> Seq<
    Result<Seq<Seq<char>>, Seq<char>>,
>;

/// A header as read, by its texts.
pub open spec fn header_view(header: Result<Vec<String>, String>) -> Result<Cells, Seq<char>> {
    match header {
        Ok(columns) => Ok(texts(columns@)),
        Err(message) => Err(message@),
    }
}

/// A record as read, by its texts.
pub open spec fn record_view(record: Result<StringRecord, String>) -> Result<Cells, Seq<char>> {
    match record {
        Ok(row) => Ok(record_cells(row)),
        Err(message) => Err(message@),
    }
}

/// Records as read, by their texts.
pub open spec fn record_views(records: Seq<Result<StringRecord, String>>) -> Seq<
    Result<Cells, Seq<char>>,
> {
    Seq::new(records.len(), |i: int| record_view(records[i]))
}

/// `csv::Reader::headers` on a reader over `bytes`. An error is handed out as its message. What
/// it returns is named by `parsed_header`, and nothing else is claimed of it.
#[verifier::external_body]
fn csv_header(bytes: &[u8], flexible: bool) -> (header: Result<Vec<String>, String>)
    ensures
        header_view(header) == parsed_header(bytes@, flexible),
{
    match ReaderBuilder::new().flexible(flexible).from_reader(bytes).headers() {
        Ok(record) => Ok(record.iter().map(str::to_string).collect()),
        Err(err) => Err(err.to_string()),
    }
}

/// `csv::Reader::records` on a reader over `bytes` that has read its header: everything that the
/// iterator yields. An error is handed out as its message, which tells where in `bytes` the
/// record stands. What it yields is named by `parsed_records`, and nothing else is claimed of it.
#[verifier::external_body]
fn csv_records(bytes: &[u8], flexible: bool) -> (records: Vec<Result<StringRecord, String>>)
    ensures
        record_views(records@) == parsed_records(bytes@, flexible),
{
    let mut reader = ReaderBuilder::new().flexible(flexible).from_reader(bytes);
    let _ = reader.headers();
    reader.records().map(|record| record.map_err(|err| err.to_string())).collect()
}

/// Why a CSV file cannot be read; the text is the parser's message.
#[derive(Debug, PartialEq, Eq)]
pub enum CsvFault {
    Header(String),
    Row(String),
}

/// A `CsvFault` by its text.
pub enum FaultView {
    Header(Seq<char>),
    Row(Seq<char>),
}

impl View for CsvFault {
    type V = FaultView;

    open spec fn view(&self) -> FaultView {
        match self {
            CsvFault::Header(message) => FaultView::Header(message@),
            CsvFault::Row(message) => FaultView::Row(message@),
        }
    }
}

/// All rows, or the message of the first error.
pub open spec fn all_rows(records: Seq<Result<Cells, Seq<char>>>) -> Result<Seq<Cells>, Seq<char>>
    decreases records.len(),
{
    if records.len() == 0 {
        Ok(Seq::empty())
    } else {
        match all_rows(records.drop_last()) {
            Err(message) => Err(message),
            Ok(rows) => match records.last() {
                Err(message) => Err(message),
                Ok(row) => Ok(rows.push(row)),
            },
        }
    }
}

/// Header and rows of the CSV file `bytes`, or the first fault in it.
pub open spec fn csv_contents(bytes: Seq<u8>) -> Result<(Cells, Seq<Cells>), FaultView> {
    match parsed_header(bytes, true) {
        Err(message) => Err(FaultView::Header(message)),
        Ok(header) => match all_rows(parsed_records(bytes, true)) {
            Err(message) => Err(FaultView::Row(message)),
            Ok(rows) => Ok((header, rows)),
        },
    }
}

/// Records that were all read without an error.
pub open spec fn ok_records(rows: Seq<Cells>) -> Seq<Result<Cells, Seq<char>>> {
    Seq::new(rows.len(), |i: int| Ok::<Cells, Seq<char>>(rows[i]))
}

pub proof fn lemma_all_rows_of_ok(rows: Seq<Cells>)
    ensures
        all_rows(ok_records(rows)) == Ok::<Seq<Cells>, Seq<char>>(rows),
    decreases rows.len(),
{
    if rows.len() == 0 {
        assert(rows =~= Seq::empty());
    } else {
        lemma_all_rows_of_ok(rows.drop_last());
        assert(ok_records(rows).drop_last() =~= ok_records(rows.drop_last()));
        assert(rows =~= rows.drop_last().push(rows.last()));
    }
}

proof fn lemma_first_error_decides(records: Seq<Result<Cells, Seq<char>>>, k: int)
    requires
        0 <= k < records.len(),
        all_rows(records.take(k)) is Ok,
        records[k] is Err,
    ensures
        all_rows(records) == Err::<Seq<Cells>, Seq<char>>(records[k]->Err_0),
    decreases records.len(),
{
    if k == records.len() - 1 {
        assert(records.drop_last() =~= records.take(k));
    } else {
        let shorter = records.drop_last();
        assert(shorter.take(k) =~= records.take(k));
        lemma_first_error_decides(shorter, k);
    }
}

/// Takes the rows out of `records`, or the message of the first error.
pub fn take_rows(records: Vec<Result<StringRecord, String>>) -> (rows: Result<Vec<StringRecord>, String>)
    ensures
        match rows {
            Ok(rows) => all_rows(record_views(records@)) == Ok::<Seq<Cells>, Seq<char>>(
                rows_cells(rows@),
            ),
            Err(message) => all_rows(record_views(records@)) == Err::<Seq<Cells>, Seq<char>>(
                message@,
            ),
        },
{
    let ghost views = record_views(records@);
    let mut rows: Vec<StringRecord> = Vec::new();
    assert(rows_cells(rows@) =~= Seq::<Cells>::empty());
    for record in it: records
        invariant
            views == record_views(records@),
            it.seq() == records@,
            all_rows(views.take(it.index() as int)) == Ok::<Seq<Cells>, Seq<char>>(
                rows_cells(rows@),
            ),
    {
        let ghost k = it.index() as int;
        let ghost done = rows@;
        assert(views[k] == record_view(record));
        assert(views.take(k + 1).drop_last() =~= views.take(k));
        match record {
            Ok(row) => {
                rows.push(row);
                assert(rows_cells(rows@) =~= rows_cells(done).push(record_cells(row)));
            },
            Err(message) => {
                proof {
                    lemma_first_error_decides(views, k);
                }
                return Err(message);
            },
        }
    }
    assert(views.take(views.len() as int) =~= views);
    Ok(rows)
}

/// Reads one CSV file, whose rows may differ in length: its header and its rows.
pub fn read_csv(bytes: &[u8]) -> (table: Result<(Vec<String>, Vec<StringRecord>), CsvFault>)
    ensures
        match table {
            Ok((header, rows)) => csv_contents(bytes@) == Ok::<(Cells, Seq<Cells>), FaultView>(
                (texts(header@), rows_cells(rows@)),
            ),
            Err(fault) => csv_contents(bytes@) == Err::<(Cells, Seq<Cells>), FaultView>(fault@),
        },
{
    let header = match csv_header(bytes, true) {
        Ok(header) => header,
        Err(message) => return Err(CsvFault::Header(message)),
    };
    match take_rows(csv_records(bytes, true)) {
        Ok(rows) => Ok((header, rows)),
        Err(message) => Err(CsvFault::Row(message)),
    }
}

/// A file whose header and records can all be read gives that header and the rows of the records,
/// one for one and in order.
pub proof fn readable_files_give_every_record(bytes: Seq<u8>)
    requires
        parsed_header(bytes, true) is Ok,
        forall|i: int|
            0 <= i < parsed_records(bytes, true).len() ==> #[trigger] parsed_records(bytes, true)[i] is Ok,
    ensures
        csv_contents(bytes) is Ok,
        csv_contents(bytes)->Ok_0.0 == parsed_header(bytes, true)->Ok_0,
        csv_contents(bytes)->Ok_0.1.len() == parsed_records(bytes, true).len(),
        forall|i: int|
            0 <= i < parsed_records(bytes, true).len() ==> #[trigger] csv_contents(bytes)->Ok_0.1[i]
                == parsed_records(bytes, true)[i]->Ok_0,
{
    let records = parsed_records(bytes, true);
    let rows = records.map_values(|record: Result<Cells, Seq<char>>| record->Ok_0);
    assert(records =~= ok_records(rows)) by {
        assert forall|i: int| 0 <= i < records.len() implies records[i] == ok_records(rows)[i] by {
            assert(records[i] is Ok);
        }
    }
    lemma_all_rows_of_ok(rows);
}

/// A header that cannot be read is the fault of the file, whatever its records are.
pub proof fn header_faults_come_first(bytes: Seq<u8>)
    requires
        parsed_header(bytes, true) is Err,
    ensures
        csv_contents(bytes) == Err::<(Cells, Seq<Cells>), FaultView>(
            FaultView::Header(parsed_header(bytes, true)->Err_0),
        ),
{
}

/// Where the header can be read, the first record that cannot is the fault of the file.
pub proof fn first_faulty_record_decides(bytes: Seq<u8>, k: int)
    requires
        parsed_header(bytes, true) is Ok,
        0 <= k < parsed_records(bytes, true).len(),
        parsed_records(bytes, true)[k] is Err,
        forall|i: int| 0 <= i < k ==> #[trigger] parsed_records(bytes, true)[i] is Ok,
    ensures
        csv_contents(bytes) == Err::<(Cells, Seq<Cells>), FaultView>(
            FaultView::Row(parsed_records(bytes, true)[k]->Err_0),
        ),
{
    let records = parsed_records(bytes, true);
    lemma_first_of_records_decides(records, k);
}

/// Of records the first error decides, and records without one give their rows in order.
pub proof fn lemma_first_of_records_decides(records: Seq<Result<Cells, Seq<char>>>, k: int)
    requires
        0 <= k <= records.len(),
        forall|i: int| 0 <= i < k ==> #[trigger] records[i] is Ok,
        k < records.len() ==> records[k] is Err,
    ensures
        k < records.len() ==> all_rows(records) == Err::<Seq<Cells>, Seq<char>>(records[k]->Err_0),
        k == records.len() ==> all_rows(records) is Ok && all_rows(records)->Ok_0.len() == k && (
        forall|i: int| 0 <= i < k ==> #[trigger] all_rows(records)->Ok_0[i] == records[i]->Ok_0),
{
    let head = records.take(k);
    let rows = head.map_values(|record: Result<Cells, Seq<char>>| record->Ok_0);
    assert(head =~= ok_records(rows)) by {
        assert forall|i: int| 0 <= i < k implies head[i] == ok_records(rows)[i] by {
            assert(records[i] is Ok);
        }
    }
    lemma_all_rows_of_ok(rows);
    if k < records.len() {
        lemma_first_error_decides(records, k);
    } else {
        assert(head =~= records);
    }
}

/// Views go by position: every string, slice and record stands in its own place.
pub proof fn views_follow_positions(
    strings: Seq<String>,
    slices: Seq<&str>,
    rows: Seq<StringRecord>,
    records: Seq<Result<StringRecord, String>>,
)
    ensures
        texts(strings).len() == strings.len(),
        forall|i: int| 0 <= i < strings.len() ==> #[trigger] texts(strings)[i] == strings[i]@,
        slice_texts(slices).len() == slices.len(),
        forall|i: int| 0 <= i < slices.len() ==> #[trigger] slice_texts(slices)[i] == slices[i]@,
        rows_cells(rows).len() == rows.len(),
        forall|i: int| 0 <= i < rows.len() ==> #[trigger] rows_cells(rows)[i] == record_cells(rows[i]),
        record_views(records).len() == records.len(),
        forall|i: int|
            0 <= i < records.len() && records[i] is Ok ==> #[trigger] record_views(records)[i] == Ok::<
                Cells,
                Seq<char>,
            >(record_cells(records[i]->Ok_0)),
        forall|i: int|
            0 <= i < records.len() && records[i] is Err ==> #[trigger] record_views(records)[i] == Err::<
                Cells,
                Seq<char>,
            >(records[i]->Err_0@),
{
}

/// Views of headers and faults keep their kind and their texts.
pub proof fn views_keep_their_kind(columns: Vec<String>, message: String)
    ensures
        header_view(Ok(columns)) == Ok::<Cells, Seq<char>>(texts(columns@)),
        header_view(Err(message)) == Err::<Cells, Seq<char>>(message@),
        CsvFault::Header(message)@ == FaultView::Header(message@),
        CsvFault::Row(message)@ == FaultView::Row(message@),
{
}

} // verus!
