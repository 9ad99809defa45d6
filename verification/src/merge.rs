//! The merging of timeline files, and the whole way from input files to the sorted output.
use crate::dedup;
use crate::output::{self, write_output, UnequalLengths};
use crate::records::{self, read_csv, Cells, CsvFault, FaultView};
use crate::sorting::{self, sort_rows};
use crate::timestamp;
use csv::StringRecord;
use vstd::prelude::*;

verus! {

/// The files that have been merged so far: the header of the first one, and the rows of all
/// that have this header.
pub struct Merged {
    pub header: Option<Vec<String>>,
    pub rows: Vec<StringRecord>,
}

impl Merged {
    /// The header, by its texts.
    pub open spec fn header_view(self) -> Option<Cells> {
        match self.header {
            Some(header) => Some(records::texts(header@)),
            None => None,
        }
    }

    /// Nothing is merged yet.
    pub fn new() -> (merged: Merged)
        ensures
            merged.header_view() is None,
            merged.rows@.len() == 0,
    {
        Merged { header: None, rows: Vec::new() }
    }

    /// Adds a file, unless its header differs from that of the first file. Says whether it was
    /// added.
    pub fn add_file(&mut self, header: Vec<String>, rows: Vec<StringRecord>) -> (added: bool)
        ensures
            added <==> old(self).header_view() is None || old(self).header_view() == Some(
                records::texts(header@),
            ),
            final(self).header_view() == if old(self).header_view() is None {
                Some(records::texts(header@))
            } else {
                old(self).header_view()
            },
            final(self).rows@ == if added {
                old(self).rows@ + rows@
            } else {
                old(self).rows@
            },
    {
        let mut rows = rows;
        let first = match &self.header {
            None => true,
            Some(expected) => {
                if !same_columns(expected.as_slice(), header.as_slice()) {
                    return false;
                }
                false
            },
        };
        if first {
            self.header = Some(header);
        }
        self.rows.append(&mut rows);
        true
    }
}

/// Whether two headers name the same columns in the same order.
fn same_columns(a: &[String], b: &[String]) -> (same: bool)
    ensures
        same == (records::texts(a@) == records::texts(b@)),
{
    let ghost (x, y) = (records::texts(a@), records::texts(b@));
    if a.len() != b.len() {
        assert(x.len() != y.len());
        return false;
    }
    for i in 0..a.len()
        invariant
            a.len() == b.len(),
            x == records::texts(a@),
            y == records::texts(b@),
            forall|j: int| 0 <= j < i ==> x[j] == y[j],
    {
        if a[i] != b[i] {
            assert(x[i as int] != y[i as int]);
            return false;
        }
    }
    assert(x =~= y);
    true
}

/// Header and rows of a file that can be read.
pub type Table = (Cells, Seq<Cells>);

/// The file at position `k` is the first that cannot be read.
pub open spec fn is_first_fault(files: Seq<Seq<u8>>, k: int) -> bool {
    &&& 0 <= k < files.len()
    &&& records::csv_contents(files[k]) is Err
    &&& forall|j: int| 0 <= j < k ==> records::csv_contents(#[trigger] files[j]) is Ok
}

/// The tables of the first `n` files, which can be read.
pub open spec fn tables(files: Seq<Seq<u8>>, n: int) -> Seq<Table> {
    Seq::new(n as nat, |i: int| records::csv_contents(files[i])->Ok_0)
}

/// The rows of all tables that have the header of the first one, in order.
pub open spec fn merged_rows(tables: Seq<Table>) -> Seq<Cells>
    decreases tables.len(),
{
    if tables.len() == 0 {
        Seq::empty()
    } else if tables.last().0 == tables.first().0 {
        merged_rows(tables.drop_last()) + tables.last().1
    } else {
        merged_rows(tables.drop_last())
    }
}

/// The positions of the tables whose header differs from that of the first one.
pub open spec fn skipped_tables(tables: Seq<Table>) -> Seq<usize>
    decreases tables.len(),
{
    if tables.len() == 0 {
        Seq::empty()
    } else if tables.last().0 == tables.first().0 {
        skipped_tables(tables.drop_last())
    } else {
        skipped_tables(tables.drop_last()).push((tables.len() - 1) as usize)
    }
}

/// Why there is no output.
#[derive(Debug, PartialEq, Eq)]
pub enum SortCsvError {
    /// There are no files to sort.
    NoInput,
    /// The file at this position cannot be read.
    Unreadable(usize, CsvFault),
    /// The files have no timestamp column.
    NoTimestampColumn,
    /// The sorted rows are not all as long as the header.
    Unwritable(UnequalLengths),
}

/// What became of a sort: the output, or why there is none.
pub enum Outcome {
    Written(Seq<u8>),
    NoInput,
    Unreadable(usize, FaultView),
    NoTimestampColumn,
    Unwritable(usize, usize, Seq<u8>),
}

/// The result of a sort, by its contents.
pub open spec fn result_view(result: Result<Vec<u8>, SortCsvError>) -> Outcome {
    match result {
        Ok(bytes) => Outcome::Written(bytes@),
        Err(SortCsvError::NoInput) => Outcome::NoInput,
        Err(SortCsvError::Unreadable(file, fault)) => Outcome::Unreadable(file, fault@),
        Err(SortCsvError::NoTimestampColumn) => Outcome::NoTimestampColumn,
        Err(SortCsvError::Unwritable(unequal)) => Outcome::Unwritable(
            unequal.expected,
            unequal.found,
            unequal.partial@,
        ),
    }
}

/// What becomes of a header and sorted rows: a file, if all rows are as long as the header.
pub open spec fn written_outcome(header: Cells, rows: Seq<Cells>) -> Outcome {
    if output::rectangular(rows, header.len()) {
        Outcome::Written(output::csv_file(header, rows))
    } else {
        let k = choose|k: int| output::first_unequal(rows, header.len(), k);
        Outcome::Unwritable(
            header.len() as usize,
            rows[k].len() as usize,
            output::partial_file(header, rows, k),
        )
    }
}

/// The rows that are put out under a header with a timestamp column.
pub open spec fn output_rows(header: Cells, rows: Seq<Cells>) -> Seq<Cells> {
    sorting::sorted_rows(
        rows,
        sorting::column(header, sorting::TIMESTAMP_COLUMN@)->0,
        sorting::column(header, sorting::EVTX_FILE_COLUMN@),
    )
}

/// What becomes of a header and the rows under it.
pub open spec fn table_outcome(header: Cells, rows: Seq<Cells>) -> Outcome {
    match sorting::column(header, sorting::TIMESTAMP_COLUMN@) {
        None => Outcome::NoTimestampColumn,
        Some(_) => written_outcome(header, output_rows(header, rows)),
    }
}

/// How many files can be read before the first that cannot.
pub open spec fn readable(files: Seq<Seq<u8>>) -> int {
    if exists|k: int| is_first_fault(files, k) {
        choose|k: int| is_first_fault(files, k)
    } else {
        files.len() as int
    }
}

/// What becomes of the files: the first that cannot be read ends the sort; the header is that
/// of the first file, and files with another header are left out.
pub open spec fn sort_outcome(files: Seq<Seq<u8>>) -> Outcome {
    let n = readable(files);
    if files.len() == 0 {
        Outcome::NoInput
    } else if n < files.len() {
        Outcome::Unreadable(n as usize, records::csv_contents(files[n])->Err_0)
    } else {
        table_outcome(tables(files, n)[0].0, merged_rows(tables(files, n)))
    }
}

/// The files that are left out for their header.
pub open spec fn skipped_files(files: Seq<Seq<u8>>) -> Seq<usize> {
    skipped_tables(tables(files, readable(files)))
}

/// Sorts the rows under a header and writes them out with it.
pub fn sort_table(header: &[String], rows: &[StringRecord]) -> (result: Result<Vec<u8>, SortCsvError>)
    ensures
        result_view(result) == table_outcome(
            records::texts(header@),
            records::rows_cells(rows@),
        ),
        result matches Ok(bytes) ==> records::csv_contents(bytes@) == Ok::<Table, FaultView>(
            (
                records::texts(header@),
                output_rows(records::texts(header@), records::rows_cells(rows@)),
            ),
        ),
{
    let sorted = match sort_rows(header, rows) {
        Some(sorted) => sorted,
        None => return Err(SortCsvError::NoTimestampColumn),
    };
    let ghost cells = output::row_refs_cells(sorted@);
    proof {
        let columns = records::texts(header@);
        let timestamp_idx = sorting::column(columns, sorting::TIMESTAMP_COLUMN@)->0;
        sorting::timestamps_are_never_ignored(columns, timestamp_idx);
    }
    match write_output(header, sorted.as_slice()) {
        Ok(bytes) => Ok(bytes),
        Err(unequal) => {
            proof {
                let len = header@.len();
                let k = choose|k: int|
                    output::first_unequal(cells, len, k) && unequal.found == cells[k].len()
                        && unequal.partial@ == output::partial_file(
                        records::texts(header@),
                        cells,
                        k,
                    );
                let m = choose|m: int| output::first_unequal(cells, len, m);
                assert(k == m) by {
                    if k < m {
                        assert(cells[k].len() == len);
                    } else if m < k {
                        assert(cells[m].len() == len);
                    }
                }
            }
            Err(SortCsvError::Unwritable(unequal))
        },
    }
}

/// The contents of several files.
pub open spec fn file_bytes(files: Seq<Vec<u8>>) -> Seq<Seq<u8>> {
    Seq::new(files.len(), |i: int| files[i]@)
}

/// What became of a sort.
pub struct Report {
    /// The positions of the files that were left out for their header.
    pub skipped: Vec<usize>,
    /// The bytes of the output file, or why there is none.
    pub result: Result<Vec<u8>, SortCsvError>,
}

proof fn lemma_first_fault_is_unique(files: Seq<Seq<u8>>, k: int)
    requires
        is_first_fault(files, k),
    ensures
        readable(files) == k,
{
    let m = readable(files);
    assert(is_first_fault(files, m));
    if m < k {
        assert(records::csv_contents(files[m]) is Ok);
    } else if k < m {
        assert(records::csv_contents(files[k]) is Ok);
    }
}

proof fn lemma_all_readable(files: Seq<Seq<u8>>)
    requires
        forall|j: int| 0 <= j < files.len() ==> records::csv_contents(#[trigger] files[j]) is Ok,
    ensures
        readable(files) == files.len(),
{
    if exists|k: int| is_first_fault(files, k) {
        let k = choose|k: int| is_first_fault(files, k);
        assert(records::csv_contents(files[k]) is Ok);
    }
}

proof fn lemma_sorting_the_output(header: Cells, rows: Seq<Cells>, bytes: Seq<u8>)
    requires
        rows.len() <= usize::MAX,
        table_outcome(header, rows) == Outcome::Written(bytes),
        records::csv_contents(bytes) == Ok::<Table, FaultView>((header, output_rows(header, rows))),
    ensures
        sort_outcome(seq![bytes]) == Outcome::Written(bytes),
{
    let sorted = output_rows(header, rows);
    let timestamp_idx = sorting::column(header, sorting::TIMESTAMP_COLUMN@)->0;
    let evtx_idx = sorting::column(header, sorting::EVTX_FILE_COLUMN@);
    sorting::sorting_twice_is_sorting_once(rows, timestamp_idx, evtx_idx);
    let again = seq![bytes];
    lemma_all_readable(again);
    let one = tables(again, 1);
    assert(one[0] == (header, sorted));
    assert(merged_rows(one) =~= sorted) by {
        assert(one.drop_last() =~= Seq::empty());
        assert(merged_rows(one.drop_last()) =~= Seq::empty());
    }
}

/// Merges timeline files in the order in which they are given, orders their rows by time and
/// drops repeated detections.
///
/// Reading the output gives back the header of the first file and the sorted rows, and sorting
/// the output again gives the same bytes.
pub fn sort_csv(files: &[Vec<u8>]) -> (report: Report)
    ensures
        result_view(report.result) == sort_outcome(file_bytes(files@)),
        report.skipped@ == skipped_files(file_bytes(files@)),
        report.result matches Ok(bytes) ==> ({
            let merged = tables(file_bytes(files@), files@.len() as int);
            records::csv_contents(bytes@) == Ok::<Table, FaultView>(
                (merged[0].0, output_rows(merged[0].0, merged_rows(merged))),
            )
        }),
        report.result matches Ok(bytes) ==> sort_outcome(seq![bytes@]) == Outcome::Written(bytes@),
{
    let ghost bytes_of = file_bytes(files@);
    let mut merged = Merged::new();
    let mut skipped: Vec<usize> = Vec::new();
    assert(records::rows_cells(merged.rows@) =~= merged_rows(tables(bytes_of, 0)));
    assert(skipped@ =~= skipped_tables(tables(bytes_of, 0)));
    for i in 0..files.len()
        invariant
            bytes_of == file_bytes(files@),
            forall|j: int| 0 <= j < i ==> records::csv_contents(#[trigger] bytes_of[j]) is Ok,
            merged.header_view() == if i == 0 {
                None
            } else {
                Some(tables(bytes_of, i as int)[0].0)
            },
            records::rows_cells(merged.rows@) == merged_rows(tables(bytes_of, i as int)),
            skipped@ == skipped_tables(tables(bytes_of, i as int)),
    {
        assert(bytes_of[i as int] == files@[i as int]@);
        let (header, rows) = match read_csv(files[i].as_slice()) {
            Ok(table) => table,
            Err(fault) => {
                proof {
                    lemma_first_fault_is_unique(bytes_of, i as int);
                }
                return Report { skipped, result: Err(SortCsvError::Unreadable(i, fault)) };
            },
        };
        let ghost here = tables(bytes_of, i + 1);
        let ghost earlier = merged.rows@;
        proof {
            assert(here.drop_last() =~= tables(bytes_of, i as int));
            assert(here.last() == (records::texts(header@), records::rows_cells(rows@)));
            assert(records::rows_cells(earlier + rows@) =~= records::rows_cells(earlier)
                + records::rows_cells(rows@));
        }
        let added = merged.add_file(header, rows);
        if !added {
            skipped.push(i);
        }
    }
    proof {
        lemma_all_readable(bytes_of);
    }
    let result = match &merged.header {
        None => Err(SortCsvError::NoInput),
        Some(header) => sort_table(header.as_slice(), merged.rows.as_slice()),
    };
    proof {
        if result is Ok {
            let table = tables(bytes_of, files@.len() as int);
            assert(records::rows_cells(merged.rows@).len() == merged.rows@.len());
            lemma_sorting_the_output(table[0].0, merged_rows(table), result->Ok_0@);
        }
    }
    Report { skipped, result }
}

proof fn lemma_merged_rows_ignore(all: Seq<Table>, k: int, other: Table)
    requires
        0 < k <= all.len(),
        other.0 != all[0].0,
    ensures
        merged_rows(all.insert(k, other)) == merged_rows(all),
    decreases all.len(),
{
    let more = all.insert(k, other);
    if k == all.len() {
        assert(more.drop_last() =~= all);
    } else {
        assert(more.drop_last() =~= all.drop_last().insert(k, other));
        assert(more.last() == all.last());
        lemma_merged_rows_ignore(all.drop_last(), k, other);
    }
}

/// A file whose header differs from that of the first file changes nothing, wherever it stands
/// after the first.
pub proof fn files_with_another_header_change_nothing(
    files: Seq<Seq<u8>>,
    k: int,
    other: Seq<u8>,
)
    requires
        0 < k <= files.len(),
        forall|j: int| 0 <= j < files.len() ==> records::csv_contents(#[trigger] files[j]) is Ok,
        records::csv_contents(other) is Ok,
        records::csv_contents(other)->Ok_0.0 != records::csv_contents(files[0])->Ok_0.0,
    ensures
        sort_outcome(files.insert(k, other)) == sort_outcome(files),
{
    let more = files.insert(k, other);
    lemma_all_readable(files);
    assert forall|j: int| 0 <= j < more.len() implies records::csv_contents(
        #[trigger] more[j],
    ) is Ok by {
        if j < k {
            assert(more[j] == files[j]);
        } else if j > k {
            assert(more[j] == files[j - 1]);
        }
    }
    lemma_all_readable(more);
    let all = tables(files, files.len() as int);
    let table = records::csv_contents(other)->Ok_0;
    assert(tables(more, more.len() as int) =~= all.insert(k, table));
    lemma_merged_rows_ignore(all, k, table);
}

/// Files are merged in the order in which they are given: the rows of one list of files are
/// followed by those of another with the same first header.
pub proof fn merging_appends_rows(a: Seq<Table>, b: Seq<Table>)
    requires
        a.len() > 0,
        b.len() > 0,
        a[0].0 == b[0].0,
    ensures
        merged_rows(a + b) == merged_rows(a) + merged_rows(b),
    decreases b.len(),
{
    let both = a + b;
    assert(both.last() == b.last());
    assert(both.drop_last() =~= a + b.drop_last());
    if b.len() == 1 {
        assert(a + b.drop_last() =~= a);
        assert(b =~= seq![b[0]]);
        tables_add_all_their_rows(a, b[0]);
        assert(both =~= a.push(b[0]));
    } else {
        let rest = b.drop_last();
        assert(rest[0] == b[0] && both.first() == a[0] && b.first() == b[0]);
        merging_appends_rows(a, rest);
        if b.last().0 == b[0].0 {
            assert(merged_rows(both) == merged_rows(a + rest) + b.last().1);
            assert(merged_rows(b) == merged_rows(rest) + b.last().1);
            assert(merged_rows(both) =~= merged_rows(a) + merged_rows(b));
        }
    }
}

/// Every detection is put out exactly once: each row of the output is a row of the input, every
/// row of the input is there up to its `EvtxFile` cell, and no two rows of the output
/// differ in nothing but that cell.
pub proof fn detections_are_put_out_once(header: Cells, rows: Seq<Cells>)
    requires
        sorting::column(header, sorting::TIMESTAMP_COLUMN@) is Some,
        rows.len() <= usize::MAX,
    ensures
        ({
            let out = output_rows(header, rows);
            let evtx_idx = sorting::column(header, sorting::EVTX_FILE_COLUMN@);
            &&& forall|p: int| 0 <= p < out.len() ==> rows.contains(#[trigger] out[p])
            &&& forall|i: int|
                0 <= i < rows.len() ==> exists|p: int|
                    0 <= p < out.len() && dedup::dedup_key(#[trigger] out[p], evtx_idx)
                        == dedup::dedup_key(#[trigger] rows[i], evtx_idx)
            &&& forall|p: int, q: int|
                0 <= p < q < out.len() ==> dedup::dedup_key(#[trigger] out[p], evtx_idx)
                    != dedup::dedup_key(#[trigger] out[q], evtx_idx)
        }),
{
    let timestamp_idx = sorting::column(header, sorting::TIMESTAMP_COLUMN@)->0;
    let evtx_idx = sorting::column(header, sorting::EVTX_FILE_COLUMN@);
    let out = output_rows(header, rows);
    sorting::timestamps_are_never_ignored(header, timestamp_idx);
    assert forall|p: int| 0 <= p < out.len() implies rows.contains(#[trigger] out[p]) by {
        sorting::lemma_output_positions(rows, timestamp_idx, evtx_idx);
        let k = sorting::output_positions(rows, timestamp_idx, evtx_idx)[p];
        assert(rows[k as int] == out[p]);
    }
    assert forall|i: int| 0 <= i < rows.len() implies exists|p: int|
        0 <= p < out.len() && dedup::dedup_key(#[trigger] out[p], evtx_idx) == dedup::dedup_key(
            #[trigger] rows[i],
            evtx_idx,
        ) by {
        let p = sorting::every_row_is_represented(rows, timestamp_idx, evtx_idx, i);
        assert(dedup::dedup_key(out[p], evtx_idx) == dedup::dedup_key(rows[i], evtx_idx));
    }
    assert forall|p: int, q: int| 0 <= p < q < out.len() implies dedup::dedup_key(
        #[trigger] out[p],
        evtx_idx,
    ) != dedup::dedup_key(#[trigger] out[q], evtx_idx) by {
        sorting::output_has_no_duplicates(rows, timestamp_idx, evtx_idx, p, q);
    }
}

/// Files that are given twice change nothing: a second round of the same files adds only rows
/// that are there already.
pub proof fn files_given_twice_change_nothing(files: Seq<Seq<u8>>)
    requires
        2 * merged_rows(tables(files, readable(files))).len() <= usize::MAX,
    ensures
        sort_outcome(files + files) == sort_outcome(files),
{
    let twice = files + files;
    if exists|k: int| is_first_fault(files, k) {
        let k = choose|k: int| is_first_fault(files, k);
        assert(is_first_fault(twice, k)) by {
            assert(twice[k] == files[k]);
            assert forall|j: int| 0 <= j < k implies records::csv_contents(
                #[trigger] twice[j],
            ) is Ok by {
                assert(twice[j] == files[j]);
            }
        }
        lemma_first_fault_is_unique(files, k);
        lemma_first_fault_is_unique(twice, k);
    } else if files.len() == 0 {
        assert(twice =~= files);
    } else {
        lemma_readable_without_fault(files, files.len() as int);
        assert forall|j: int| 0 <= j < twice.len() implies records::csv_contents(
            #[trigger] twice[j],
        ) is Ok by {
            if j < files.len() {
                assert(twice[j] == files[j]);
            } else {
                assert(twice[j] == files[j - files.len()]);
            }
        }
        lemma_all_readable(twice);
        let all = tables(files, files.len() as int);
        assert(tables(twice, twice.len() as int) =~= all + all);
        merging_appends_rows(all, all);
        let header = all[0].0;
        if sorting::column(header, sorting::TIMESTAMP_COLUMN@) is Some {
            sorting::copies_add_nothing(
                merged_rows(all),
                sorting::column(header, sorting::TIMESTAMP_COLUMN@)->0,
                sorting::column(header, sorting::EVTX_FILE_COLUMN@),
            );
        }
    }
}

/// Where no file is the first that cannot be read, the first `n` can be read.
proof fn lemma_readable_without_fault(files: Seq<Seq<u8>>, n: int)
    requires
        0 <= n <= files.len(),
        !exists|k: int| is_first_fault(files, k),
    ensures
        forall|j: int| 0 <= j < n ==> records::csv_contents(#[trigger] files[j]) is Ok,
    decreases n,
{
    if n > 0 {
        lemma_readable_without_fault(files, n - 1);
        if records::csv_contents(files[n - 1]) is Err {
            assert(is_first_fault(files, n - 1));
        }
    }
}

/// The tables are merged one after the other: the first gives all its rows, a further one adds all
/// its rows at the end where it has the header of the first, and none where it has another.
pub proof fn tables_add_all_their_rows(tables: Seq<Table>, table: Table)
    ensures
        merged_rows(Seq::empty()) == Seq::<Cells>::empty(),
        merged_rows(seq![table]) == table.1,
        tables.len() > 0 && table.0 == tables[0].0 ==> merged_rows(tables.push(table))
            == merged_rows(tables) + table.1,
        tables.len() > 0 && table.0 != tables[0].0 ==> merged_rows(tables.push(table))
            == merged_rows(tables),
{
    assert(tables.push(table).drop_last() =~= tables);
    let one = seq![table];
    assert(one.drop_last() =~= Seq::<Table>::empty());
    assert(merged_rows(one.drop_last()) =~= Seq::<Cells>::empty());
    assert(merged_rows(one) =~= table.1);
}

/// A row is among the merged ones if and only if a table with the header of the first one has it.
pub proof fn merged_rows_are_those_of_the_tables(tables: Seq<Table>, row: Cells)
    ensures
        merged_rows(tables).contains(row) <==> exists|k: int|
            0 <= k < tables.len() && (#[trigger] tables[k]).0 == tables[0].0 && tables[k].1.contains(
                row,
            ),
    decreases tables.len(),
{
    if tables.len() > 0 {
        let (rest, last) = (tables.drop_last(), tables.last());
        merged_rows_are_those_of_the_tables(rest, row);
        let merged = merged_rows(tables);
        let earlier = merged_rows(rest);
        if merged.contains(row) {
            let i = choose|i: int| 0 <= i < merged.len() && merged[i] == row;
            if i < earlier.len() {
                assert(earlier[i] == row);
                assert(earlier.contains(row));
                let k = choose|k: int|
                    0 <= k < rest.len() && (#[trigger] rest[k]).0 == rest[0].0 && rest[k].1.contains(row);
                assert(tables[k] == rest[k]);
            } else {
                assert(last.1[i - earlier.len()] == row);
                assert(tables[tables.len() - 1].1.contains(row));
            }
        }
        if exists|k: int|
            0 <= k < tables.len() && (#[trigger] tables[k]).0 == tables[0].0 && tables[k].1.contains(row) {
            let k = choose|k: int|
                0 <= k < tables.len() && (#[trigger] tables[k]).0 == tables[0].0
                    && tables[k].1.contains(row);
            if k < rest.len() {
                assert(rest[k] == tables[k] && rest[0] == tables[0]);
                assert(earlier.contains(row));
                let i = choose|i: int| 0 <= i < earlier.len() && earlier[i] == row;
                assert(merged[i] == row);
            } else {
                let i = choose|i: int| 0 <= i < last.1.len() && last.1[i] == row;
                assert(merged[earlier.len() + i] == row);
            }
        }
    }
}

/// The tables that are left out are those with another header than the first, all of them, in
/// ascending order.
pub proof fn tables_with_another_header_are_skipped(tables: Seq<Table>)
    requires
        tables.len() <= usize::MAX,
    ensures
        forall|k: usize| #[trigger]
            skipped_tables(tables).contains(k) <==> k < tables.len() && tables[k as int].0
                != tables[0].0,
        forall|p: int, q: int|
            0 <= p < q < skipped_tables(tables).len() ==> #[trigger] skipped_tables(tables)[p]
                < #[trigger] skipped_tables(tables)[q],
    decreases tables.len(),
{
    if tables.len() > 0 {
        let rest = tables.drop_last();
        tables_with_another_header_are_skipped(rest);
        let (skipped, earlier) = (skipped_tables(tables), skipped_tables(rest));
        let last = (tables.len() - 1) as usize;
        assert forall|p: int| 0 <= p < earlier.len() implies #[trigger] earlier[p] < last by {
            assert(earlier.contains(earlier[p]));
        }
        assert forall|k: usize| #[trigger] skipped.contains(k) <==> k < tables.len()
            && tables[k as int].0 != tables[0].0 by {
            if earlier.contains(k) {
                let p = choose|p: int| 0 <= p < earlier.len() && earlier[p] == k;
                assert(skipped[p] == k);
                assert(rest[k as int] == tables[k as int]);
            }
            if skipped.contains(k) {
                let p = choose|p: int| 0 <= p < skipped.len() && skipped[p] == k;
                if p < earlier.len() {
                    assert(earlier[p] == k);
                    assert(earlier.contains(k));
                }
            }
            if k < last && tables[k as int].0 != tables[0].0 {
                assert(rest[k as int] == tables[k as int] && rest[0] == tables[0]);
                assert(earlier.contains(k));
            }
            if k == last && tables[k as int].0 != tables[0].0 {
                assert(skipped[earlier.len() as int] == k);
            }
        }
    }
}

/// The tables of files are their contents, one for one.
pub proof fn tables_are_the_contents_of_files(files: Seq<Seq<u8>>, n: int, vecs: Seq<Vec<u8>>)
    requires
        0 <= n <= files.len(),
    ensures
        tables(files, n).len() == n,
        forall|i: int|
            0 <= i < n ==> #[trigger] tables(files, n)[i] == records::csv_contents(files[i])->Ok_0,
        file_bytes(vecs).len() == vecs.len(),
        forall|i: int| 0 <= i < vecs.len() ==> #[trigger] file_bytes(vecs)[i] == vecs[i]@,
{
}

/// Without files there is nothing to sort.
pub proof fn no_files_no_output()
    ensures
        sort_outcome(Seq::empty()) == Outcome::NoInput,
        skipped_files(Seq::empty()) == Seq::<usize>::empty(),
{
    lemma_all_readable(Seq::empty());
    assert(skipped_files(Seq::empty()) =~= Seq::<usize>::empty());
}

/// The first file that cannot be read ends the sort, whatever the files before and after it hold.
/// The files before it that have another header than the first have been left out by then.
pub proof fn first_unreadable_file_decides(files: Seq<Seq<u8>>, k: usize)
    requires
        k < files.len(),
        records::csv_contents(files[k as int]) is Err,
        forall|j: int| 0 <= j < k ==> records::csv_contents(#[trigger] files[j]) is Ok,
    ensures
        sort_outcome(files) == Outcome::Unreadable(
            k,
            records::csv_contents(files[k as int])->Err_0,
        ),
        forall|j: usize| #[trigger]
            skipped_files(files).contains(j) <==> j < k && records::csv_contents(files[j as int])->Ok_0.0
                != records::csv_contents(files[0])->Ok_0.0,
{
    assert(is_first_fault(files, k as int));
    lemma_first_fault_is_unique(files, k as int);
    tables_with_another_header_are_skipped(tables(files, k as int));
}

/// Where all files can be read, those with another header than the first are left out, and only
/// those. There is no output if the first header lacks a `Timestamp` column.
pub proof fn readable_files_are_sorted_under_the_first_header(files: Seq<Seq<u8>>)
    requires
        0 < files.len() <= usize::MAX,
        forall|j: int| 0 <= j < files.len() ==> records::csv_contents(#[trigger] files[j]) is Ok,
        records::csv_contents(files[0])->Ok_0.0.len() <= usize::MAX,
    ensures
        ({
            let header = records::csv_contents(files[0])->Ok_0.0;
            let rows = merged_rows(tables(files, files.len() as int));
            &&& !header.contains("Timestamp"@) ==> sort_outcome(files) == Outcome::NoTimestampColumn
            &&& header.contains("Timestamp"@) ==> sort_outcome(files) == written_outcome(
                header,
                output_rows(header, rows),
            )
        }),
        forall|j: usize| #[trigger]
            skipped_files(files).contains(j) <==> j < files.len() && records::csv_contents(
                files[j as int],
            )->Ok_0.0 != records::csv_contents(files[0])->Ok_0.0,
{
    lemma_all_readable(files);
    tables_with_another_header_are_skipped(tables(files, files.len() as int));
    sorting::first_column_of_a_name_is_found(records::csv_contents(files[0])->Ok_0.0, "Timestamp"@);
}

/// The rows under a header are put in order by its first `Timestamp` column, and duplicates may
/// differ in its first `EvtxFile` column.
pub proof fn columns_are_found_by_name(header: Cells, rows: Seq<Cells>, timestamp_idx: usize)
    requires
        header.len() <= usize::MAX,
        timestamp_idx < header.len(),
        header[timestamp_idx as int] == "Timestamp"@,
        !header.take(timestamp_idx as int).contains("Timestamp"@),
    ensures
        !header.contains("EvtxFile"@) ==> output_rows(header, rows) == sorting::sorted_rows(
            rows,
            timestamp_idx,
            None,
        ),
        forall|evtx_idx: usize|
            evtx_idx < header.len() && header[evtx_idx as int] == "EvtxFile"@ && !(#[trigger] header.take(
                evtx_idx as int,
            )).contains("EvtxFile"@) ==> output_rows(header, rows) == sorting::sorted_rows(
                rows,
                timestamp_idx,
                Some(evtx_idx),
            ),
{
    sorting::first_column_of_a_name_is_found(header, "Timestamp"@);
    sorting::first_column_of_a_name_is_found(header, "EvtxFile"@);
    lemma_column_at(header, "Timestamp"@, timestamp_idx);
    assert forall|evtx_idx: usize|
        evtx_idx < header.len() && header[evtx_idx as int] == "EvtxFile"@ && !(#[trigger] header.take(
            evtx_idx as int,
        )).contains("EvtxFile"@) implies output_rows(header, rows) == sorting::sorted_rows(
        rows,
        timestamp_idx,
        Some(evtx_idx),
    ) by {
        lemma_column_at(header, "EvtxFile"@, evtx_idx);
    }
}

proof fn lemma_column_at(header: Cells, name: Seq<char>, i: usize)
    requires
        header.len() <= usize::MAX,
        i < header.len(),
        header[i as int] == name,
        !header.take(i as int).contains(name),
    ensures
        sorting::column(header, name) == Some(i),
{
    sorting::first_column_of_a_name_is_found(header, name);
    assert(header.contains(name));
    let k = sorting::column(header, name)->0;
    if k < i {
        assert(header.take(i as int)[k as int] == name);
    } else if i < k {
        assert(header.take(k as int)[i as int] == name);
    }
}

/// A header and rows are written as a file if and only if every row is as long as the header.
/// Else the first row of another length is reported, with its length and what was put out.
pub proof fn rows_of_another_length_are_reported(header: Cells, rows: Seq<Cells>, k: int)
    requires
        header.len() <= usize::MAX,
        0 <= k <= rows.len(),
        forall|j: int| 0 <= j < k ==> (#[trigger] rows[j]).len() == header.len(),
        k < rows.len() ==> rows[k].len() != header.len(),
    ensures
        k == rows.len() ==> written_outcome(header, rows) == Outcome::Written(
            output::csv_file(header, rows),
        ),
        k < rows.len() ==> written_outcome(header, rows) == Outcome::Unwritable(
            header.len() as usize,
            rows[k].len() as usize,
            output::partial_file(header, rows, k),
        ),
{
    if k < rows.len() {
        assert(output::first_unequal(rows, header.len(), k));
        let m = choose|m: int| output::first_unequal(rows, header.len(), m);
        if m < k {
            assert(rows[m].len() == header.len());
        } else if k < m {
            assert(rows[k].len() == header.len());
        }
    }
}

/// A result stands for the outcome of its own kind, with its own contents.
pub proof fn results_keep_their_kind(
    bytes: Vec<u8>,
    file: usize,
    fault: CsvFault,
    unequal: UnequalLengths,
)
    ensures
        result_view(Ok(bytes)) == Outcome::Written(bytes@),
        result_view(Err(SortCsvError::NoInput)) == Outcome::NoInput,
        result_view(Err(SortCsvError::Unreadable(file, fault))) == Outcome::Unreadable(file, fault@),
        result_view(Err(SortCsvError::NoTimestampColumn)) == Outcome::NoTimestampColumn,
        result_view(Err(SortCsvError::Unwritable(unequal))) == Outcome::Unwritable(
            unequal.expected,
            unequal.found,
            unequal.partial@,
        ),
{
}

/// What is merged so far has the header that it holds.
pub proof fn merged_header_is_the_one_held(rows: Vec<StringRecord>, header: Vec<String>)
    ensures
        (Merged { header: Some(header), rows }).header_view() == Some(records::texts(header@)),
        (Merged { header: None, rows }).header_view() is None,
{
}

/// No detection is lost: for every file with the header of the first one and every row of it, the
/// output has a row that agrees with it in every column but the first `EvtxFile` column.
pub proof fn every_row_of_every_file_is_put_out(
    files: Seq<Seq<u8>>,
    evtx_idx: Option<usize>,
    f: int,
    r: int,
) -> (p: int)
    requires
        forall|j: int| 0 <= j < files.len() ==> records::csv_contents(#[trigger] files[j]) is Ok,
        0 <= f < files.len(),
        records::csv_contents(files[f])->Ok_0.0 == records::csv_contents(files[0])->Ok_0.0,
        0 <= r < records::csv_contents(files[f])->Ok_0.1.len(),
        records::csv_contents(files[0])->Ok_0.0.contains("Timestamp"@),
        records::csv_contents(files[0])->Ok_0.0.len() <= usize::MAX,
        merged_rows(tables(files, files.len() as int)).len() <= usize::MAX,
        evtx_idx is None ==> !records::csv_contents(files[0])->Ok_0.0.contains("EvtxFile"@),
        evtx_idx matches Some(e) ==> {
            let header = records::csv_contents(files[0])->Ok_0.0;
            e < header.len() && header[e as int] == "EvtxFile"@ && !header.take(e as int).contains(
                "EvtxFile"@,
            )
        },
    ensures
        ({
            let header = records::csv_contents(files[0])->Ok_0.0;
            let out = output_rows(header, merged_rows(tables(files, files.len() as int)));
            let row = records::csv_contents(files[f])->Ok_0.1[r];
            &&& 0 <= p < out.len()
            &&& evtx_idx is None ==> out[p] == row
            &&& out[p].len() == row.len() || (evtx_idx is Some && (out[p].len() == evtx_idx->0
                && row.len() == evtx_idx->0 + 1 || row.len() == evtx_idx->0 && out[p].len()
                == evtx_idx->0 + 1))
            &&& forall|j: int|
                0 <= j < out[p].len() && j < row.len() && !(evtx_idx is Some && evtx_idx->0 == j)
                    ==> #[trigger] out[p][j] == row[j]
        }),
{
    let header = records::csv_contents(files[0])->Ok_0.0;
    let all = tables(files, files.len() as int);
    let rows = merged_rows(all);
    let row = records::csv_contents(files[f])->Ok_0.1[r];
    assert(all[f] == records::csv_contents(files[f])->Ok_0 && all[f].0 == all[0].0);
    assert(all[f].1.contains(row));
    merged_rows_are_those_of_the_tables(all, row);
    let i = choose|i: int| 0 <= i < rows.len() && rows[i] == row;
    sorting::first_column_of_a_name_is_found(header, "Timestamp"@);
    sorting::first_column_of_a_name_is_found(header, "EvtxFile"@);
    let timestamp_idx = sorting::column(header, "Timestamp"@)->0;
    if let Some(e) = evtx_idx {
        lemma_column_at(header, "EvtxFile"@, e);
    }
    assert(sorting::column(header, "EvtxFile"@) == evtx_idx);
    let p = sorting::every_row_is_represented(rows, timestamp_idx, evtx_idx, i);
    dedup::duplicates_agree_but_for_the_ignored_cell(output_rows(header, rows)[p], row, evtx_idx);
    p
}

/// Nothing is made up: every row of the output is a row of a file with the header of the first one.
pub proof fn every_output_row_is_from_a_file(files: Seq<Seq<u8>>, p: int) -> (f: int)
    requires
        files.len() > 0,
        forall|j: int| 0 <= j < files.len() ==> records::csv_contents(#[trigger] files[j]) is Ok,
        records::csv_contents(files[0])->Ok_0.0.contains("Timestamp"@),
        records::csv_contents(files[0])->Ok_0.0.len() <= usize::MAX,
        merged_rows(tables(files, files.len() as int)).len() <= usize::MAX,
        0 <= p < output_rows(
            records::csv_contents(files[0])->Ok_0.0,
            merged_rows(tables(files, files.len() as int)),
        ).len(),
    ensures
        0 <= f < files.len(),
        records::csv_contents(files[f])->Ok_0.0 == records::csv_contents(files[0])->Ok_0.0,
        records::csv_contents(files[f])->Ok_0.1.contains(
            output_rows(
                records::csv_contents(files[0])->Ok_0.0,
                merged_rows(tables(files, files.len() as int)),
            )[p],
        ),
{
    let header = records::csv_contents(files[0])->Ok_0.0;
    let all = tables(files, files.len() as int);
    let out = output_rows(header, merged_rows(all));
    sorting::first_column_of_a_name_is_found(header, "Timestamp"@);
    detections_are_put_out_once(header, merged_rows(all));
    merged_rows_are_those_of_the_tables(all, out[p]);
    let k = choose|k: int|
        0 <= k < all.len() && (#[trigger] all[k]).0 == all[0].0 && all[k].1.contains(out[p]);
    assert(all[k] == records::csv_contents(files[k])->Ok_0);
    k
}

/// No detection comes out twice: any two rows of the output differ in a column other than the
/// first `EvtxFile` column, in its cell or because only one of them reaches it.
pub proof fn no_two_output_rows_agree(
    header: Cells,
    rows: Seq<Cells>,
    p: int,
    q: int,
) -> (j: int)
    requires
        header.len() <= usize::MAX,
        header.contains("Timestamp"@),
        rows.len() <= usize::MAX,
        0 <= p < q < output_rows(header, rows).len(),
    ensures
        0 <= j,
        !(j < header.len() && header[j] == "EvtxFile"@ && !header.take(j).contains("EvtxFile"@)),
        ({
            let (a, b) = (output_rows(header, rows)[p], output_rows(header, rows)[q]);
            ||| j < a.len() && j < b.len() && a[j] != b[j]
            ||| j < a.len() && j >= b.len()
            ||| j >= a.len() && j < b.len()
        }),
{
    let (a, b) = (output_rows(header, rows)[p], output_rows(header, rows)[q]);
    sorting::first_column_of_a_name_is_found(header, "Timestamp"@);
    let evtx_idx = sorting::column(header, "EvtxFile"@);
    detections_are_put_out_once(header, rows);
    let j = dedup::other_rows_differ_elsewhere(a, b, evtx_idx);
    if j < header.len() && header[j] == "EvtxFile"@ && !header.take(j).contains("EvtxFile"@) {
        lemma_column_at(header, "EvtxFile"@, j as usize);
    }
    j
}

/// The output is in the order of time: where the timestamp cell of every row has a key, a row of the
/// output has no greater key than the rows after it.
pub proof fn output_is_in_order_of_time(
    header: Cells,
    rows: Seq<Cells>,
    timestamp_idx: usize,
    p: int,
    q: int,
)
    requires
        header.len() <= usize::MAX,
        timestamp_idx < header.len(),
        header[timestamp_idx as int] == "Timestamp"@,
        !header.take(timestamp_idx as int).contains("Timestamp"@),
        rows.len() <= usize::MAX,
        forall|i: int|
            0 <= i < rows.len() ==> timestamp_idx < (#[trigger] rows[i]).len()
                && timestamp::timestamp_key(rows[i][timestamp_idx as int]) is Some,
        0 <= p < q < output_rows(header, rows).len(),
    ensures
        timestamp::timestamp_key(output_rows(header, rows)[p][timestamp_idx as int]) is Some,
        timestamp::timestamp_key(output_rows(header, rows)[q][timestamp_idx as int]) is Some,
        timestamp::timestamp_key(output_rows(header, rows)[p][timestamp_idx as int])->0
            <= timestamp::timestamp_key(output_rows(header, rows)[q][timestamp_idx as int])->0,
{
    lemma_column_at(header, "Timestamp"@, timestamp_idx);
    let evtx_idx = sorting::column(header, "EvtxFile"@);
    sorting::earlier_rows_come_out_first(rows, timestamp_idx, evtx_idx, p, q);
    sorting::earlier_rows_come_out_first(rows, timestamp_idx, evtx_idx, q, p);
}

} // verus!
