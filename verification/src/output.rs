//! The writing of the sorted CSV file.
use crate::records::{self, fields, Cells, FaultView};
use csv::{QuoteStyle, StringRecord, Writer, WriterBuilder};
use vstd::prelude::*;

verus! {

/// `csv::QuoteStyle`, whose variants say which fields are put in quotes.
#[verifier::external_type_specification]
pub struct ExQuoteStyle(QuoteStyle);

/// `field` with every double quote written twice.
pub open spec fn doubled_quotes(field: Seq<char>) -> Seq<char>
    decreases field.len(),
{
    if field.len() == 0 {
        Seq::empty()
    } else {
        doubled_quotes(field.drop_last()) + if field.last() == '"' {
            seq!['"', '"']
        } else {
            seq![field.last()]
        }
    }
}

/// `text` without the sign at its start, if it has one.
pub open spec fn unsigned(text: Seq<char>) -> Seq<char> {
    if text.len() > 0 && (text[0] == '+' || text[0] == '-') {
        text.drop_first()
    } else {
        text
    }
}

/// `text` has no characters but the digits 0 to 9.
pub open spec fn all_digits(text: Seq<char>) -> bool {
    forall|i: int| 0 <= i < text.len() ==> '0' <= #[trigger] text[i] && text[i] <= '9'
}

/// Digits, with a dot before, between or after them or without one.
pub open spec fn is_decimal(text: Seq<char>) -> bool {
    ||| text.len() > 0 && all_digits(text)
    ||| text.len() > 1 && exists|dot: int|
        0 <= dot < text.len() && #[trigger] text[dot] == '.' && all_digits(text.take(dot))
            && all_digits(text.skip(dot + 1))
}

/// A decimal, an `e` or `E`, and digits that may have a sign.
pub open spec fn is_scientific(text: Seq<char>) -> bool {
    exists|e: int|
        0 <= e < text.len() && (#[trigger] text[e] == 'e' || text[e] == 'E') && is_decimal(
            text.take(e),
        ) && unsigned(text.skip(e + 1)).len() > 0 && all_digits(unsigned(text.skip(e + 1)))
}

/// `c` is the letter `small`, in lower or upper case.
pub open spec fn is_letter(c: char, small: char) -> bool {
    c == small || c as int == small as int - 0x20
}

/// `text` is the word `small`, in lower and upper case letters.
pub open spec fn is_word(text: Seq<char>, small: Seq<char>) -> bool {
    &&& text.len() == small.len()
    &&& forall|i: int| 0 <= i < small.len() ==> is_letter(#[trigger] text[i], small[i])
}

/// Whether a field is a number. Next to decimals, with or without an exponent, infinity and
/// "not a number" count, each with or without a sign.
pub open spec fn is_number(field: Seq<char>) -> bool {
    let text = unsigned(field);
    ||| is_decimal(text)
    ||| is_scientific(text)
    ||| is_word(text, seq!['i', 'n', 'f'])
    ||| is_word(text, seq!['i', 'n', 'f', 'i', 'n', 'i', 't', 'y'])
    ||| is_word(text, seq!['n', 'a', 'n'])
}

/// A field as it stands in the file: a number bare, anything else in double quotes.
pub open spec fn field_text(field: Seq<char>) -> Seq<char> {
    if is_number(field) {
        field
    } else {
        seq!['"'] + doubled_quotes(field) + seq!['"']
    }
}

/// Fields with commas between them.
pub open spec fn joined_fields(record: Cells) -> Seq<char>
    decreases record.len(),
{
    if record.len() == 0 {
        Seq::empty()
    } else if record.len() == 1 {
        field_text(record[0])
    } else {
        joined_fields(record.drop_last()) + seq![','] + field_text(record.last())
    }
}

/// One record with its line end. A record without fields is written as one empty field.
pub open spec fn record_line(record: Cells) -> Seq<char> {
    (if record.len() == 0 {
        seq!['"', '"']
    } else {
        joined_fields(record)
    }) + seq!['\n']
}

/// What a record leaves behind where it is refused at its end: its fields without the line
/// end, and without the closing quote of the last one.
pub open spec fn torn_line(record: Cells) -> Seq<char> {
    let line = joined_fields(record);
    if record.len() == 0 || is_number(record.last()) {
        line
    } else {
        line.drop_last()
    }
}

/// The text of a CSV file: the lines of its records.
pub open spec fn csv_text(records: Seq<Cells>) -> Seq<char>
    decreases records.len(),
{
    if records.len() == 0 {
        Seq::empty()
    } else {
        csv_text(records.drop_last()) + record_line(records.last())
    }
}

/// A `csv::Writer` that writes into memory.
#[verifier::external_body]
pub struct CsvWriter {
    inner: Writer<Vec<u8>>,
}

/// The records that a `CsvWriter` has written, in order.
pub uninterp spec fn written(writer: CsvWriter) -> Seq<Seq<Seq<char>>>;

/// Whether a record of `len` fields may follow `records`: all have as many as the first.
pub open spec fn same_length(records: Seq<Cells>, len: nat) -> bool {
    records.len() == 0 || records[0].len() == len
}

impl CsvWriter {
    /// `csv::WriterBuilder::from_writer` over an empty buffer, with the quote style set: nothing
    /// is written yet.
    #[verifier::external_body]
    fn new(style: QuoteStyle) -> (writer: CsvWriter)
        requires
            style == QuoteStyle::NonNumeric,
        ensures
            written(writer) == Seq::<Seq<Seq<char>>>::empty(),
    {
        CsvWriter { inner: WriterBuilder::new().quote_style(style).from_writer(Vec::new()) }
    }

    /// `csv::Writer::write_record`: adds one record. It fails on a record that has not as many
    /// fields as the first one, and on no other. A writer that failed is closed: what it has
    /// put out by then are the bytes of the records before and of the torn line.
    #[verifier::external_body]
    fn write_record(self, record: Vec<&str>) -> (writer: Result<CsvWriter, Vec<u8>>)
        ensures
            writer is Ok <==> same_length(written(self), record@.len()),
            writer matches Ok(writer) ==> written(writer) == written(self).push(
                records::slice_texts(record@),
            ),
            writer matches Err(bytes) ==> bytes@ == vstd::utf8::encode_utf8(
                csv_text(written(self)) + torn_line(records::slice_texts(record@)),
            ),
    {
        let mut writer = self;
        match writer.inner.write_record(record) {
            Ok(()) => Ok(writer),
            Err(_) => Err(writer.inner.into_inner().unwrap()),
        }
    }

    /// `csv::Writer::into_inner`: the bytes of the file. They are the UTF-8 encoding of
    /// `csv_text`: the writer leaves bare what parses as `f64` or as `i128`, and `is_number` is the
    /// grammar that `f64` documents, which takes in all that parses as `i128`. The CSV parser gives
    /// back the records that were written, if none of them was without fields.
    #[verifier::external_body]
    fn into_bytes(self) -> (bytes: Vec<u8>)
        ensures
            bytes@ == vstd::utf8::encode_utf8(csv_text(written(self))),
            written(self).len() > 0 && (forall|i: int|
                0 <= i < written(self).len() ==> (#[trigger] written(self)[i]).len() > 0) ==> {
                &&& records::parsed_header(bytes@, true) == Ok::<Cells, Seq<char>>(
                    written(self)[0],
                )
                &&& records::parsed_records(bytes@, true) == Seq::new(
                    (written(self).len() - 1) as nat,
                    |i: int| Ok::<Cells, Seq<char>>(written(self)[i + 1]),
                )
            },
    {
        self.inner.into_inner().unwrap()
    }
}

/// The output cannot be written to its end: a row has another number of cells than the header.
#[derive(Debug, PartialEq, Eq)]
pub struct UnequalLengths {
    /// The number of columns of the header.
    pub expected: usize,
    /// The number of cells of the first row that differs.
    pub found: usize,
    /// What has been put out when that row is refused.
    pub partial: Vec<u8>,
}

/// The cells of rows that are handed around by reference.
pub open spec fn row_refs_cells(rows: Seq<&StringRecord>) -> Seq<Cells> {
    Seq::new(rows.len(), |i: int| records::record_cells(*rows[i]))
}

/// Row `k` is the first whose length is not `len`.
pub open spec fn first_unequal(rows: Seq<Cells>, len: nat, k: int) -> bool {
    &&& 0 <= k < rows.len()
    &&& rows[k].len() != len
    &&& forall|j: int| 0 <= j < k ==> (#[trigger] rows[j]).len() == len
}

/// All rows have the length `len`.
pub open spec fn rectangular(rows: Seq<Cells>, len: nat) -> bool {
    forall|i: int| 0 <= i < rows.len() ==> (#[trigger] rows[i]).len() == len
}

/// The bytes of the CSV file with this header and these rows.
pub open spec fn csv_file(header: Cells, rows: Seq<Cells>) -> Seq<u8> {
    vstd::utf8::encode_utf8(csv_text(seq![header] + rows))
}

/// The bytes that have been put out when row `k` is refused.
pub open spec fn partial_file(header: Cells, rows: Seq<Cells>, k: int) -> Seq<u8> {
    vstd::utf8::encode_utf8(csv_text(seq![header] + rows.take(k)) + torn_line(rows[k]))
}

/// Writes the header and the rows as a CSV file in which everything but numbers is quoted.
///
/// Every row must be as long as the header. Reading the file gives back the header and the rows.
pub fn write_output(header: &[String], rows: &[&StringRecord]) -> (file: Result<Vec<u8>, UnequalLengths>)
    ensures
        file is Ok <==> rectangular(row_refs_cells(rows@), header@.len()),
        file matches Ok(bytes) ==> bytes@ == csv_file(records::texts(header@), row_refs_cells(rows@)),
        file matches Ok(bytes) ==> header@.len() > 0 ==> records::csv_contents(bytes@) == Ok::<
            (Cells, Seq<Cells>),
            FaultView,
        >((records::texts(header@), row_refs_cells(rows@))),
        file matches Err(unequal) ==> {
            &&& unequal.expected == header@.len()
            &&& exists|k: int|
                first_unequal(row_refs_cells(rows@), header@.len(), k) && unequal.found
                    == row_refs_cells(rows@)[k].len() && unequal.partial@ == partial_file(
                    records::texts(header@),
                    row_refs_cells(rows@),
                    k,
                )
        },
{
    let mut columns: Vec<&str> = Vec::new();
    for i in 0..header.len()
        invariant
            columns.len() == i,
            forall|j: int| 0 <= j < i ==> (#[trigger] columns[j])@ == header@[j]@,
    {
        columns.push(header[i].as_str());
    }
    let ghost head = records::texts(header@);
    let ghost body = row_refs_cells(rows@);
    assert(records::slice_texts(columns@) =~= head);
    // the first record sets the length, so it is never refused
    let mut writer = match CsvWriter::new(QuoteStyle::NonNumeric).write_record(columns) {
        Ok(writer) => writer,
        Err(partial) => {
            return Err(UnequalLengths { expected: header.len(), found: header.len(), partial });
        },
    };
    assert(written(writer) =~= seq![head] + body.take(0));
    for i in 0..rows.len()
        invariant
            head == records::texts(header@),
            body == row_refs_cells(rows@),
            written(writer) == seq![head] + body.take(i as int),
            rectangular(body.take(i as int), header@.len()),
    {
        let record = fields(rows[i]);
        let found: usize = record.len();
        proof {
            assert(records::slice_texts(record@).len() == record@.len());
            assert(body[i as int] == records::slice_texts(record@));
            assert(written(writer)[0] == head);
            assert(body.take(i + 1) =~= body.take(i as int).push(body[i as int]));
            assert forall|j: int| 0 <= j < i implies (#[trigger] body[j]).len() == header@.len() by {
                assert(body.take(i as int)[j] == body[j]);
            }
        }
        match writer.write_record(record) {
            Ok(next) => {
                proof {
                    assert(written(next) =~= seq![head] + body.take(i + 1));
                }
                writer = next;
            },
            Err(partial) => {
                assert(first_unequal(body, header@.len(), i as int));
                return Err(UnequalLengths { expected: header.len(), found, partial });
            },
        }
    }
    assert(body.take(body.len() as int) =~= body);
    let bytes = writer.into_bytes();
    proof {
        if header@.len() > 0 {
            let records = seq![head] + body;
            assert(forall|i: int| 0 <= i < records.len() ==> (#[trigger] records[i]).len() > 0);
            let parsed = records::parsed_records(bytes@, true);
            assert(parsed =~= records::ok_records(body)) by {
                assert(forall|i: int| 0 <= i < body.len() ==> records[i + 1] == body[i]);
            }
            records::lemma_all_rows_of_ok(body);
        }
    }
    Ok(bytes)
}

/// Whether the output may be written: a file that exists is overwritten only on request.
pub fn may_write(output_exists: bool, clobber: bool) -> (ok: bool)
    ensures
        ok == (!output_exists || clobber),
{
    !output_exists || clobber
}

/// Doubling quotes goes character by character: a double quote becomes two, any other character
/// stays.
pub proof fn quotes_are_doubled_one_by_one(a: Seq<char>, b: Seq<char>, c: char)
    ensures
        doubled_quotes(Seq::empty()) == Seq::<char>::empty(),
        doubled_quotes(seq!['"']) == seq!['"', '"'],
        c != '"' ==> doubled_quotes(seq![c]) == seq![c],
        doubled_quotes(a + b) == doubled_quotes(a) + doubled_quotes(b),
    decreases b.len(),
{
    assert(seq!['"'].drop_last() =~= Seq::<char>::empty());
    assert(seq![c].drop_last() =~= Seq::<char>::empty());
    assert(doubled_quotes(seq!['"'].drop_last()) =~= Seq::<char>::empty());
    assert(doubled_quotes(seq![c].drop_last()) =~= Seq::<char>::empty());
    assert(doubled_quotes(seq!['"']) =~= seq!['"', '"']);
    assert(c != '"' ==> doubled_quotes(seq![c]) =~= seq![c]);
    if b.len() == 0 {
        assert(a + b =~= a);
        assert(doubled_quotes(a) + doubled_quotes(b) =~= doubled_quotes(a));
    } else {
        assert((a + b).last() == b.last());
        assert((a + b).drop_last() =~= a + b.drop_last());
        quotes_are_doubled_one_by_one(a, b.drop_last(), c);
        assert(doubled_quotes(a + b) =~= doubled_quotes(a) + doubled_quotes(b));
    }
}

/// A field that is a number stands as it is, any other between double quotes with its own doubled.
pub proof fn numbers_stand_bare(field: Seq<char>)
    ensures
        is_number(field) ==> field_text(field) == field,
        !is_number(field) ==> field_text(field) == seq!['"'] + doubled_quotes(field) + seq!['"'],
{
}

/// A number holds nothing that needs quotes: no comma, no quote and no line end.
pub proof fn numbers_need_no_quotes(field: Seq<char>, i: int)
    requires
        is_number(field),
        0 <= i < field.len(),
    ensures
        field[i] != ',',
        field[i] != '"',
        field[i] != '\n',
        field[i] != '\r',
        field[i] != ' ',
{
    let text = unsigned(field);
    if text.len() == field.len() || i > 0 {
        let k: int = if text.len() == field.len() {
            i
        } else {
            i - 1
        };
        assert(text[k] == field[i]);
        if is_decimal(text) {
            lemma_decimal_characters(text, k);
        } else if is_scientific(text) {
            lemma_scientific_characters(text, k);
        }
    }
}

proof fn lemma_scientific_characters(text: Seq<char>, k: int)
    requires
        is_scientific(text),
        0 <= k < text.len(),
    ensures
        ({
            let c = text[k];
            c == '.' || c == 'e' || c == 'E' || c == '+' || c == '-' || ('0' <= c && c <= '9')
        }),
{
    let e = choose|e: int|
        0 <= e < text.len() && (#[trigger] text[e] == 'e' || text[e] == 'E') && is_decimal(
            text.take(e),
        ) && unsigned(text.skip(e + 1)).len() > 0 && all_digits(unsigned(text.skip(e + 1)));
    if k < e {
        lemma_decimal_characters(text.take(e), k);
        assert(text.take(e)[k] == text[k]);
    } else if k > e {
        let power = text.skip(e + 1);
        assert(power[k - e - 1] == text[k]);
        if unsigned(power).len() == power.len() {
            assert(unsigned(power)[k - e - 1] == text[k]);
        } else if k > e + 1 {
            assert(unsigned(power)[k - e - 2] == text[k]);
        }
    }
}

proof fn lemma_decimal_characters(text: Seq<char>, k: int)
    requires
        is_decimal(text),
        0 <= k < text.len(),
    ensures
        text[k] == '.' || ('0' <= text[k] && text[k] <= '9'),
{
    if !all_digits(text) {
        let dot = choose|dot: int|
            0 <= dot < text.len() && #[trigger] text[dot] == '.' && all_digits(text.take(dot))
                && all_digits(text.skip(dot + 1));
        if k < dot {
            assert(text.take(dot)[k] == text[k]);
        } else if k > dot {
            assert(text.skip(dot + 1)[k - dot - 1] == text[k]);
        }
    }
}

/// Digits are a number, with or without a sign, and so are digits around a dot.
pub proof fn digits_are_numbers(sign: Seq<char>, whole: Seq<char>, part: Seq<char>)
    requires
        sign == Seq::<char>::empty() || sign == seq!['+'] || sign == seq!['-'],
        forall|i: int| 0 <= i < whole.len() ==> '0' <= #[trigger] whole[i] && whole[i] <= '9',
        forall|i: int| 0 <= i < part.len() ==> '0' <= #[trigger] part[i] && part[i] <= '9',
        whole.len() + part.len() > 0,
    ensures
        whole.len() > 0 ==> is_number(sign + whole),
        is_number(sign + whole + seq!['.'] + part),
{
    let decimal = whole + seq!['.'] + part;
    assert(decimal.take(whole.len() as int) =~= whole);
    assert(decimal.skip(whole.len() as int + 1) =~= part);
    assert(decimal[whole.len() as int] == '.');
    assert(is_decimal(decimal));
    assert(sign + whole + seq!['.'] + part =~= sign + decimal);
    if sign.len() == 0 {
        assert(sign + whole =~= whole);
        assert(sign + decimal =~= decimal);
        assert(unsigned(whole) =~= whole);
        assert(decimal[0] != '+' && decimal[0] != '-') by {
            if whole.len() > 0 {
                assert(decimal[0] == whole[0]);
            }
        }
        assert(unsigned(decimal) =~= decimal);
    } else {
        assert((sign + whole)[0] == sign[0] && (sign + decimal)[0] == sign[0]);
        assert(unsigned(sign + whole) =~= whole);
        assert(unsigned(sign + decimal) =~= decimal);
    }
}

/// A line is its fields in order with a comma between any two, and a line end.
pub proof fn lines_are_fields_with_commas(a: Cells, b: Cells, field: Seq<char>)
    ensures
        record_line(Seq::empty()) == seq!['"', '"', '\n'],
        record_line(seq![field]) == field_text(field) + seq!['\n'],
        a.len() > 0 ==> record_line(a.push(field)) == joined_fields(a) + seq![','] + record_line(
            seq![field],
        ),
        a.len() > 0 ==> record_line(a) == joined_fields(a) + seq!['\n'],
        a.len() > 0 && b.len() > 0 ==> joined_fields(a + b) == joined_fields(a) + seq![',']
            + joined_fields(b),
    decreases b.len(),
{
    assert(record_line(Seq::empty()) =~= seq!['"', '"', '\n']);
    if a.len() > 0 {
        assert(a.push(field).drop_last() =~= a);
        assert(record_line(a.push(field)) =~= joined_fields(a) + seq![','] + record_line(
            seq![field],
        ));
    }
    if a.len() > 0 && b.len() > 0 {
        assert((a + b).last() == b.last());
        assert((a + b).drop_last() =~= a + b.drop_last());
        if b.len() == 1 {
            assert(a + b.drop_last() =~= a);
        } else {
            lines_are_fields_with_commas(a, b.drop_last(), field);
            assert(joined_fields(a + b) =~= joined_fields(a) + seq![','] + joined_fields(b));
        }
    }
}

/// A torn line lacks the line end and, where the last field is quoted, its closing quote.
pub proof fn torn_lines_lack_their_end(record: Cells)
    requires
        record.len() > 0,
    ensures
        is_number(record.last()) ==> torn_line(record) + seq!['\n'] == record_line(record),
        !is_number(record.last()) ==> torn_line(record) + seq!['"', '\n'] == record_line(record),
{
    if !is_number(record.last()) {
        let line = joined_fields(record);
        assert(line.last() == '"');
        assert(torn_line(record) + seq!['"', '\n'] =~= record_line(record));
    }
}

/// A file is the lines of its records in order: the header's first, then that of each row.
pub proof fn files_are_lines_in_order(a: Seq<Cells>, b: Seq<Cells>, record: Cells)
    ensures
        csv_text(Seq::empty()) == Seq::<char>::empty(),
        csv_text(seq![record]) == record_line(record),
        csv_text(a + b) == csv_text(a) + csv_text(b),
        csv_file(record, b) == vstd::utf8::encode_utf8(record_line(record) + csv_text(b)),
{
    lemma_text_of_both(a, b);
    lemma_text_of_both(seq![record], b);
    assert(seq![record].drop_last() =~= Seq::<Cells>::empty());
    assert(csv_text(seq![record].drop_last()) =~= Seq::<char>::empty());
    assert(csv_text(seq![record]) =~= record_line(record));
}

proof fn lemma_text_of_both(a: Seq<Cells>, b: Seq<Cells>)
    ensures
        csv_text(a + b) == csv_text(a) + csv_text(b),
    decreases b.len(),
{
    if b.len() == 0 {
        assert(a + b =~= a);
        assert(csv_text(a) + csv_text(b) =~= csv_text(a));
    } else {
        assert((a + b).last() == b.last());
        assert((a + b).drop_last() =~= a + b.drop_last());
        lemma_text_of_both(a, b.drop_last());
        assert(csv_text(a + b) =~= csv_text(a) + csv_text(b));
    }
}

/// What is put out before a refused row are the lines of the header and of the rows before it, and
/// the torn line of the row itself.
pub proof fn refused_rows_leave_a_torn_line(header: Cells, before: Seq<Cells>, row: Cells, after: Seq<Cells>)
    ensures
        partial_file(header, before + seq![row] + after, before.len() as int)
            == vstd::utf8::encode_utf8(record_line(header) + csv_text(before) + torn_line(row)),
{
    let rows = before + seq![row] + after;
    assert(rows.take(before.len() as int) =~= before);
    assert(rows[before.len() as int] == row);
    files_are_lines_in_order(seq![header], before, header);
}

/// Rows are all as long as the header unless one is not, and the first such row is the one that
/// is refused. Rows that are handed around by reference are the rows themselves.
pub proof fn one_row_of_another_length_is_refused(rows: Seq<Cells>, len: nat, refs: Seq<&StringRecord>)
    ensures
        rectangular(rows, len) <==> forall|i: int| 0 <= i < rows.len() ==> (#[trigger] rows[i]).len() == len,
        forall|k: int| #[trigger]
            first_unequal(rows, len, k) <==> 0 <= k < rows.len() && rows[k].len() != len && forall|
                j: int,
            |
                0 <= j < k ==> (#[trigger] rows[j]).len() == len,
        row_refs_cells(refs).len() == refs.len(),
        forall|i: int|
            0 <= i < refs.len() ==> #[trigger] row_refs_cells(refs)[i] == records::record_cells(
                *refs[i],
            ),
{
}

} // verus!
