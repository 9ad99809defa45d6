//! The sorting of merged timeline files.
use crate::dedup::{self, sort_and_dedup};
use crate::order;
use crate::output;
use crate::records::{self, Cells};
use crate::timestamp::{self, parse_timestamp};
use csv::StringRecord;
use vstd::prelude::*;

verus! {

/// The column that rows are ordered by.
pub const TIMESTAMP_COLUMN: &'static str = "Timestamp";

/// The column in which duplicates may differ.
pub const EVTX_FILE_COLUMN: &'static str = "EvtxFile";

/// Column `i` is the first with this name.
pub open spec fn is_column(header: Cells, name: Seq<char>, i: usize) -> bool {
    &&& i < header.len()
    &&& header[i as int] == name
    &&& forall|j: int| 0 <= j < i ==> header[j] != name
}

/// The first column with this name, if there is one.
pub open spec fn column(header: Cells, name: Seq<char>) -> Option<usize> {
    if exists|i: usize| is_column(header, name, i) {
        Some(choose|i: usize| is_column(header, name, i))
    } else {
        None
    }
}

/// Finds the first column with this name.
pub fn find_column(header: &[String], name: &str) -> (found: Option<usize>)
    ensures
        found == column(records::texts(header@), name@),
        found matches Some(i) ==> is_column(records::texts(header@), name@, i),
        found is None ==> forall|i: int|
            0 <= i < header@.len() ==> #[trigger] records::texts(header@)[i] != name@,
{
    let wanted: String = name.to_owned();
    for i in 0..header.len()
        invariant
            wanted@ == name@,
            forall|j: int| 0 <= j < i ==> records::texts(header@)[j] != name@,
    {
        if header[i] == wanted {
            proof {
                let columns = records::texts(header@);
                assert(is_column(columns, name@, i));
                let k = choose|k: usize| is_column(columns, name@, k);
                assert(k == i) by {
                    if k < i {
                        assert(columns[k as int] != name@);
                    }
                }
            }
            return Some(i);
        }
    }
    None
}

/// The cell of a row in a column, if the row reaches that far.
pub open spec fn cell_at(row: Cells, i: usize) -> Option<Seq<char>> {
    if i < row.len() {
        Some(row[i as int])
    } else {
        None
    }
}

/// The time key of a row, if it has a timestamp of a known format.
pub open spec fn time_key(row: Cells, timestamp_idx: usize) -> Option<i128> {
    match cell_at(row, timestamp_idx) {
        Some(cell) => timestamp::timestamp_key(cell),
        None => None,
    }
}

/// The text key of a row: the bytes of its timestamp cell.
pub open spec fn text_key(row: Cells, timestamp_idx: usize) -> Option<Seq<u8>> {
    match cell_at(row, timestamp_idx) {
        Some(cell) => Some(vstd::utf8::encode_utf8(cell)),
        None => None,
    }
}

/// Every row has a timestamp of a known format.
pub open spec fn all_timed(rows: Seq<Cells>, timestamp_idx: usize) -> bool {
    forall|i: int| 0 <= i < rows.len() ==> time_key(#[trigger] rows[i], timestamp_idx) is Some
}

/// The time keys of rows that all have one.
pub open spec fn time_ranks(rows: Seq<Cells>, timestamp_idx: usize) -> Seq<i128> {
    Seq::new(rows.len(), |i: int| time_key(rows[i], timestamp_idx)->0)
}

/// The text keys of rows.
pub open spec fn text_ranks(rows: Seq<Cells>, timestamp_idx: usize) -> Seq<Option<Seq<u8>>> {
    Seq::new(rows.len(), |i: int| text_key(rows[i], timestamp_idx))
}

/// The positions of the rows that are put out, in order: by these times, or by the texts of the
/// timestamp cells where no times are given.
pub open spec fn positions_by(
    rows: Seq<Cells>,
    timestamp_idx: usize,
    ignored: Option<usize>,
    times: Option<Seq<i128>>,
) -> Seq<usize> {
    let dedups = dedup::dedup_keys(rows, ignored);
    match times {
        Some(times) => dedup::timeline::<i128>(times, dedups),
        None => dedup::timeline::<Option<&str>>(text_ranks(rows, timestamp_idx), dedups),
    }
}

/// The times of the rows, unless a row has none.
pub open spec fn times_of(rows: Seq<Cells>, timestamp_idx: usize) -> Option<Seq<i128>> {
    if all_timed(rows, timestamp_idx) {
        Some(time_ranks(rows, timestamp_idx))
    } else {
        None
    }
}

/// The positions of the rows that are put out, in order.
pub open spec fn output_positions(
    rows: Seq<Cells>,
    timestamp_idx: usize,
    ignored: Option<usize>,
) -> Seq<usize> {
    positions_by(rows, timestamp_idx, ignored, times_of(rows, timestamp_idx))
}

/// The rows that are put out, in order.
pub open spec fn sorted_rows(rows: Seq<Cells>, timestamp_idx: usize, ignored: Option<usize>) -> Seq<
    Cells,
> {
    dedup::picked(rows, output_positions(rows, timestamp_idx, ignored))
}

/// The times of the rows, unless a row has none.
fn row_times(rows: &[StringRecord], timestamp_idx: usize) -> (times: Option<Vec<i128>>)
    ensures
        (match times {
            Some(times) => Some(times@),
            None => None,
        }) == times_of(records::rows_cells(rows@), timestamp_idx),
{
    let ghost cells = records::rows_cells(rows@);
    let mut times: Vec<i128> = Vec::new();
    for i in 0..rows.len()
        invariant
            cells == records::rows_cells(rows@),
            times.len() == i,
            forall|j: int|
                0 <= j < i ==> time_key(#[trigger] cells[j], timestamp_idx) == Some(times[j]),
    {
        assert(cells[i as int] == records::record_cells(rows@[i as int]));
        let key = match rows[i].get(timestamp_idx) {
            Some(cell) => parse_timestamp(cell),
            None => None,
        };
        assert(key == time_key(cells[i as int], timestamp_idx));
        match key {
            Some(time) => {
                times.push(time);
            },
            None => {
                assert(!all_timed(cells, timestamp_idx));
                return None;
            },
        }
    }
    assert(times@ =~= time_ranks(cells, timestamp_idx));
    Some(times)
}

/// Orders the rows by the given times, or by the texts of their timestamp cells where there are
/// none, and drops duplicates. One key serves for both.
pub fn sort_by_times<'a>(
    rows: &'a [StringRecord],
    timestamp_idx: usize,
    ignored: Option<usize>,
    times: Option<Vec<i128>>,
) -> (out: Vec<&'a StringRecord>)
    requires
        times matches Some(times) ==> times@.len() == rows@.len(),
    ensures
        output::row_refs_cells(out@) == dedup::picked(
            records::rows_cells(rows@),
            positions_by(
                records::rows_cells(rows@),
                timestamp_idx,
                ignored,
                match times {
                    Some(times) => Some(times@),
                    None => None,
                },
            ),
        ),
{
    let ghost cells = records::rows_cells(rows@);
    match times {
        Some(times) => {
            assert(order::ranks_of(times@) =~= times@);
            let out = sort_and_dedup(rows, ignored, times.as_slice());
            proof {
                let kept = dedup::timeline::<i128>(times@, dedup::dedup_keys(cells, ignored));
                assert forall|p: int| 0 <= p < kept.len() implies kept[p] < rows@.len() by {
                    assert(kept.contains(kept[p]));
                }
                assert(output::row_refs_cells(out@) =~= dedup::picked(cells, kept));
            }
            out
        },
        None => {
            let mut keys: Vec<Option<&'a str>> = Vec::new();
            for i in 0..rows.len()
                invariant
                    cells == records::rows_cells(rows@),
                    keys.len() == i,
                    forall|j: int|
                        0 <= j < i ==> order::SortKey::rank(&#[trigger] keys[j]) == text_key(
                            cells[j],
                            timestamp_idx,
                        ),
            {
                assert(cells[i as int] == records::record_cells(rows@[i as int]));
                keys.push(rows[i].get(timestamp_idx));
            }
            let ghost ranks = text_ranks(cells, timestamp_idx);
            assert(order::ranks_of(keys@) =~= ranks);
            let out = sort_and_dedup(rows, ignored, keys.as_slice());
            proof {
                let kept = dedup::timeline::<Option<&str>>(
                    ranks,
                    dedup::dedup_keys(cells, ignored),
                );
                assert forall|p: int| 0 <= p < kept.len() implies kept[p] < rows@.len() by {
                    assert(kept.contains(kept[p]));
                }
                assert(output::row_refs_cells(out@) =~= dedup::picked(cells, kept));
            }
            out
        },
    }
}

/// Sorts the rows by time and drops duplicates, unless there is no timestamp column. If any
/// row has no timestamp of a known format, all are ordered by the timestamp's text.
pub fn sort_rows<'a>(header: &[String], rows: &'a [StringRecord]) -> (out: Option<
    Vec<&'a StringRecord>,
>)
    ensures
        match column(records::texts(header@), TIMESTAMP_COLUMN@) {
            Some(timestamp_idx) => out is Some && output::row_refs_cells(out->0@) == sorted_rows(
                records::rows_cells(rows@),
                timestamp_idx,
                column(records::texts(header@), EVTX_FILE_COLUMN@),
            ),
            None => out is None,
        },
{
    let timestamp_idx = match find_column(header, TIMESTAMP_COLUMN) {
        Some(timestamp_idx) => timestamp_idx,
        None => return None,
    };
    let evtx_idx = find_column(header, EVTX_FILE_COLUMN);
    let times = row_times(rows, timestamp_idx);
    Some(sort_by_times(rows, timestamp_idx, evtx_idx, times))
}

/// Two rows have the same sort key.
pub open spec fn same_key(rows: Seq<Cells>, timestamp_idx: usize, i: int, j: int) -> bool {
    if all_timed(rows, timestamp_idx) {
        time_key(rows[i], timestamp_idx) == time_key(rows[j], timestamp_idx)
    } else {
        text_key(rows[i], timestamp_idx) == text_key(rows[j], timestamp_idx)
    }
}

/// The sort key of row `i` is smaller than that of row `j`: an earlier time or, where a row has
/// no time, a timestamp cell that comes first as text.
pub open spec fn smaller_key(rows: Seq<Cells>, timestamp_idx: usize, i: int, j: int) -> bool {
    if all_timed(rows, timestamp_idx) {
        time_key(rows[i], timestamp_idx)->0 < time_key(rows[j], timestamp_idx)->0
    } else {
        <Option<&str> as order::SortKey>::before(
            text_key(rows[i], timestamp_idx),
            text_key(rows[j], timestamp_idx),
        )
    }
}

/// What the output positions are, whichever key is used.
pub proof fn lemma_output_positions(rows: Seq<Cells>, timestamp_idx: usize, ignored: Option<usize>)
    requires
        rows.len() <= usize::MAX,
    ensures
        ({
            let out = output_positions(rows, timestamp_idx, ignored);
            let dedups = dedup::dedup_keys(rows, ignored);
            if all_timed(rows, timestamp_idx) {
                dedup::is_timeline::<i128>(out, time_ranks(rows, timestamp_idx), dedups)
            } else {
                dedup::is_timeline::<Option<&str>>(out, text_ranks(rows, timestamp_idx), dedups)
            }
        }),
        forall|p: int|
            0 <= p < output_positions(rows, timestamp_idx, ignored).len()
                ==> #[trigger] output_positions(rows, timestamp_idx, ignored)[p] < rows.len(),
        output_positions(rows, timestamp_idx, ignored).len() <= rows.len(),
{
    let out = output_positions(rows, timestamp_idx, ignored);
    let dedups = dedup::dedup_keys(rows, ignored);
    if all_timed(rows, timestamp_idx) {
        let ranks = time_ranks(rows, timestamp_idx);
        dedup::timeline_exists::<i128>(ranks, dedups);
        dedup::lemma_timeline_in_range::<i128>(out, ranks, dedups);
        dedup::lemma_timeline_fits::<i128>(out, ranks, dedups);
    } else {
        let ranks = text_ranks(rows, timestamp_idx);
        dedup::timeline_exists::<Option<&str>>(ranks, dedups);
        dedup::lemma_timeline_in_range::<Option<&str>>(out, ranks, dedups);
        dedup::lemma_timeline_fits::<Option<&str>>(out, ranks, dedups);
    }
}

/// The output is in ascending order, and rows with the same key come out in input order.
pub proof fn output_is_ordered(
    rows: Seq<Cells>,
    timestamp_idx: usize,
    ignored: Option<usize>,
    p: int,
    q: int,
)
    requires
        rows.len() <= usize::MAX,
        0 <= p < q < output_positions(rows, timestamp_idx, ignored).len(),
    ensures
        ({
            let out = output_positions(rows, timestamp_idx, ignored);
            let (i, j) = (out[p] as int, out[q] as int);
            ||| smaller_key(rows, timestamp_idx, i, j)
            ||| same_key(rows, timestamp_idx, i, j) && i < j
        }),
{
    lemma_output_positions(rows, timestamp_idx, ignored);
    let out = output_positions(rows, timestamp_idx, ignored);
    let (i, j) = (out[p] as int, out[q] as int);
    if all_timed(rows, timestamp_idx) {
        assert(order::precedes::<i128>(time_ranks(rows, timestamp_idx), i, j));
        assert(time_key(rows[i], timestamp_idx) is Some && time_key(rows[j], timestamp_idx) is Some);
    } else {
        assert(order::precedes::<Option<&str>>(text_ranks(rows, timestamp_idx), i, j));
    }
}

/// Rows that are identical apart from another column have the same sort key.
pub proof fn duplicates_share_their_key(
    rows: Seq<Cells>,
    timestamp_idx: usize,
    ignored: Option<usize>,
    i: int,
    j: int,
)
    requires
        ignored != Some(timestamp_idx),
        dedup::dedup_key(rows[i], ignored) == dedup::dedup_key(rows[j], ignored),
    ensures
        same_key(rows, timestamp_idx, i, j),
{
    dedup::duplicates_agree_elsewhere(rows[i], rows[j], ignored, timestamp_idx);
}

/// A row is put out if and only if no earlier row is identical to it apart from the ignored
/// column. Rows far apart in the input and rows of different files are no exception.
pub proof fn first_copies_are_put_out(
    rows: Seq<Cells>,
    timestamp_idx: usize,
    ignored: Option<usize>,
    i: usize,
)
    requires
        rows.len() <= usize::MAX,
        ignored != Some(timestamp_idx),
        i < rows.len(),
    ensures
        output_positions(rows, timestamp_idx, ignored).contains(i) <==> forall|j: int|
            0 <= j < i ==> dedup::dedup_key(#[trigger] rows[j], ignored) != dedup::dedup_key(
                rows[i as int],
                ignored,
            ),
{
    lemma_output_positions(rows, timestamp_idx, ignored);
    let dedups = dedup::dedup_keys(rows, ignored);
    let (times, texts) = (time_ranks(rows, timestamp_idx), text_ranks(rows, timestamp_idx));
    let timed = all_timed(rows, timestamp_idx);
    let kept = if timed {
        dedup::survives(times, dedups, i as int)
    } else {
        dedup::survives(texts, dedups, i as int)
    };
    if kept {
        assert forall|j: int| 0 <= j < i implies dedup::dedup_key(#[trigger] rows[j], ignored)
            != dedup::dedup_key(rows[i as int], ignored) by {
            if dedup::dedup_key(rows[j], ignored) == dedup::dedup_key(rows[i as int], ignored) {
                duplicates_share_their_key(rows, timestamp_idx, ignored, j, i as int);
                assert(dedups[j] == dedups[i as int]);
                if timed {
                    assert(times[j] == times[i as int]);
                } else {
                    assert(texts[j] == texts[i as int]);
                }
            }
        }
    } else {
        let j = if timed {
            choose|j: int| 0 <= j < i && (#[trigger] times[j] == times[i as int] && dedups[j] == dedups[i as int])
        } else {
            choose|j: int| 0 <= j < i && (#[trigger] texts[j] == texts[i as int] && dedups[j] == dedups[i as int])
        };
        assert(dedups[j] == dedups[i as int]);
        assert(dedup::dedup_key(rows[j], ignored) == dedup::dedup_key(rows[i as int], ignored));
    }
}

/// No two rows of the output are identical apart from the ignored column.
pub proof fn output_has_no_duplicates(
    rows: Seq<Cells>,
    timestamp_idx: usize,
    ignored: Option<usize>,
    p: int,
    q: int,
)
    requires
        rows.len() <= usize::MAX,
        ignored != Some(timestamp_idx),
        0 <= p < q < sorted_rows(rows, timestamp_idx, ignored).len(),
    ensures
        dedup::dedup_key(sorted_rows(rows, timestamp_idx, ignored)[p], ignored)
            != dedup::dedup_key(sorted_rows(rows, timestamp_idx, ignored)[q], ignored),
{
    lemma_output_positions(rows, timestamp_idx, ignored);
    output_is_ordered(rows, timestamp_idx, ignored, p, q);
    let out = output_positions(rows, timestamp_idx, ignored);
    let (i, j) = (out[p], out[q]);
    assert(out.contains(i) && out.contains(j));
    first_copies_are_put_out(rows, timestamp_idx, ignored, i);
    first_copies_are_put_out(rows, timestamp_idx, ignored, j);
    if i == j {
        order::lemma_precedes_is_strict_total::<i128>(
            time_ranks(rows, timestamp_idx),
            i as int,
            j as int,
            0,
        );
        order::lemma_precedes_is_strict_total::<Option<&str>>(
            text_ranks(rows, timestamp_idx),
            i as int,
            j as int,
            0,
        );
    } else if i < j {
        assert(dedup::dedup_key(rows[i as int], ignored) != dedup::dedup_key(
            rows[j as int],
            ignored,
        ));
    } else {
        assert(dedup::dedup_key(rows[j as int], ignored) != dedup::dedup_key(
            rows[i as int],
            ignored,
        ));
    }
}

/// Every row of the input is in the output, itself or through the first row that is identical
/// to it apart from the ignored column.
pub proof fn every_row_is_represented(
    rows: Seq<Cells>,
    timestamp_idx: usize,
    ignored: Option<usize>,
    i: int,
) -> (p: int)
    requires
        rows.len() <= usize::MAX,
        0 <= i < rows.len(),
    ensures
        0 <= p < sorted_rows(rows, timestamp_idx, ignored).len(),
        output_positions(rows, timestamp_idx, ignored)[p] <= i,
        dedup::dedup_key(sorted_rows(rows, timestamp_idx, ignored)[p], ignored)
            == dedup::dedup_key(rows[i], ignored),
        same_key(rows, timestamp_idx, output_positions(rows, timestamp_idx, ignored)[p] as int, i),
{
    lemma_output_positions(rows, timestamp_idx, ignored);
    let out = output_positions(rows, timestamp_idx, ignored);
    let dedups = dedup::dedup_keys(rows, ignored);
    if all_timed(rows, timestamp_idx) {
        let ranks = time_ranks(rows, timestamp_idx);
        let p = dedup::first_copy_is_kept::<i128>(out, ranks, dedups, i);
        let k = out[p] as int;
        assert(dedups[k] == dedup::dedup_key(rows[k], ignored));
        assert(ranks[k] == time_key(rows[k], timestamp_idx)->0);
        assert(time_key(rows[k], timestamp_idx) is Some && time_key(rows[i], timestamp_idx) is Some);
        p
    } else {
        let ranks = text_ranks(rows, timestamp_idx);
        let p = dedup::first_copy_is_kept::<Option<&str>>(out, ranks, dedups, i);
        let k = out[p] as int;
        assert(dedups[k] == dedup::dedup_key(rows[k], ignored));
        assert(ranks[k] == text_key(rows[k], timestamp_idx));
        p
    }
}

/// Rows with the same text key have the same time key.
proof fn lemma_same_text_same_time(a: Cells, b: Cells, timestamp_idx: usize)
    requires
        text_key(a, timestamp_idx) == text_key(b, timestamp_idx),
    ensures
        time_key(a, timestamp_idx) == time_key(b, timestamp_idx),
{
    if timestamp_idx < a.len() {
        vstd::utf8::encode_utf8_decode_utf8(a[timestamp_idx as int]);
        vstd::utf8::encode_utf8_decode_utf8(b[timestamp_idx as int]);
    }
}

/// Sorting rows that are already sorted changes nothing.
pub proof fn sorting_twice_is_sorting_once(
    rows: Seq<Cells>,
    timestamp_idx: usize,
    ignored: Option<usize>,
)
    requires
        rows.len() <= usize::MAX,
    ensures
        sorted_rows(sorted_rows(rows, timestamp_idx, ignored), timestamp_idx, ignored)
            == sorted_rows(rows, timestamp_idx, ignored),
{
    lemma_output_positions(rows, timestamp_idx, ignored);
    let kept = output_positions(rows, timestamp_idx, ignored);
    let sorted = sorted_rows(rows, timestamp_idx, ignored);
    let dedups = dedup::dedup_keys(rows, ignored);
    let all = Seq::new(kept.len(), |p: int| p as usize);
    assert(dedup::dedup_keys(sorted, ignored) =~= dedup::picked(dedups, kept));
    if all_timed(rows, timestamp_idx) {
        let ranks = time_ranks(rows, timestamp_idx);
        dedup::timeline_of_a_timeline::<i128>(ranks, dedups);
        assert(all_timed(sorted, timestamp_idx));
        assert(time_ranks(sorted, timestamp_idx) =~= dedup::picked(ranks, kept));
    } else {
        let ranks = text_ranks(rows, timestamp_idx);
        dedup::timeline_of_a_timeline::<Option<&str>>(ranks, dedups);
        let i = choose|i: int| 0 <= i < rows.len() && time_key(#[trigger] rows[i], timestamp_idx) is None;
        let p = every_row_is_represented(rows, timestamp_idx, ignored, i);
        lemma_same_text_same_time(rows[kept[p] as int], rows[i], timestamp_idx);
        assert(time_key(sorted[p], timestamp_idx) is None);
        assert(!all_timed(sorted, timestamp_idx));
        assert(text_ranks(sorted, timestamp_idx) =~= dedup::picked(ranks, kept));
    }
    assert(output_positions(sorted, timestamp_idx, ignored) == all);
    assert(dedup::picked(sorted, all) =~= sorted);
}

/// The timestamp column is not the one in which duplicates may differ.
pub proof fn timestamps_are_never_ignored(header: Cells, timestamp_idx: usize)
    requires
        column(header, TIMESTAMP_COLUMN@) == Some(timestamp_idx),
    ensures
        column(header, EVTX_FILE_COLUMN@) != Some(timestamp_idx),
        timestamp_idx < header.len(),
{
    reveal_strlit("Timestamp");
    reveal_strlit("EvtxFile");
    assert(TIMESTAMP_COLUMN@.len() != EVTX_FILE_COLUMN@.len());
    assert(is_column(header, TIMESTAMP_COLUMN@, timestamp_idx));
    if column(header, EVTX_FILE_COLUMN@) == Some(timestamp_idx) {
        assert(is_column(header, EVTX_FILE_COLUMN@, timestamp_idx));
    }
}

/// The cells of the ignored column decide neither order nor survival: rows that differ from
/// these in that column alone come out at the same positions.
pub proof fn ignored_cells_do_not_move_rows(
    rows: Seq<Cells>,
    others: Seq<Cells>,
    timestamp_idx: usize,
    ignored: usize,
)
    requires
        timestamp_idx != ignored,
        rows.len() == others.len(),
        forall|i: int|
            0 <= i < rows.len() ==> dedup::agree_outside(#[trigger] rows[i], others[i], ignored),
    ensures
        output_positions(rows, timestamp_idx, Some(ignored)) == output_positions(
            others,
            timestamp_idx,
            Some(ignored),
        ),
{
    assert forall|i: int| 0 <= i < rows.len() implies cell_at(rows[i], timestamp_idx) == cell_at(
        others[i],
        timestamp_idx,
    ) by {
        assert(dedup::agree_outside(rows[i], others[i], ignored));
        if timestamp_idx < rows[i].len() {
            assert(rows[i][timestamp_idx as int] == others[i][timestamp_idx as int]);
        }
    }
    assert(time_ranks(rows, timestamp_idx) =~= time_ranks(others, timestamp_idx));
    assert(text_ranks(rows, timestamp_idx) =~= text_ranks(others, timestamp_idx));
    assert(all_timed(rows, timestamp_idx) == all_timed(others, timestamp_idx)) by {
        assert(forall|i: int|
            0 <= i < rows.len() ==> time_key(#[trigger] rows[i], timestamp_idx) == time_key(
                others[i],
                timestamp_idx,
            ));
        assert(forall|i: int|
            0 <= i < rows.len() ==> time_key(rows[i], timestamp_idx) == time_key(
                #[trigger] others[i],
                timestamp_idx,
            ));
    }
    dedup::lemma_ignored_cells_are_no_key(rows, others, ignored);
}

/// Sorting rows together with a copy of them gives what sorting them gives.
pub proof fn copies_add_nothing(rows: Seq<Cells>, timestamp_idx: usize, ignored: Option<usize>)
    requires
        2 * rows.len() <= usize::MAX,
    ensures
        output_positions(rows + rows, timestamp_idx, ignored) == output_positions(
            rows,
            timestamp_idx,
            ignored,
        ),
        sorted_rows(rows + rows, timestamp_idx, ignored) == sorted_rows(
            rows,
            timestamp_idx,
            ignored,
        ),
{
    let both = rows + rows;
    assert(all_timed(both, timestamp_idx) == all_timed(rows, timestamp_idx)) by {
        assert(forall|i: int| 0 <= i < rows.len() ==> both[i] == #[trigger] rows[i]);
    }
    if all_timed(rows, timestamp_idx) {
        let ranks = time_ranks(rows, timestamp_idx);
        assert(time_ranks(both, timestamp_idx) =~= ranks + ranks);
        dedup::repeated_rows_add_nothing::<i128>(ranks, rows, ignored);
    } else {
        let ranks = text_ranks(rows, timestamp_idx);
        assert(text_ranks(both, timestamp_idx) =~= ranks + ranks);
        dedup::repeated_rows_add_nothing::<Option<&str>>(ranks, rows, ignored);
    }
}

/// A column is found if and only if the header has its name; it is then the first of that name.
pub proof fn first_column_of_a_name_is_found(header: Cells, name: Seq<char>)
    requires
        header.len() <= usize::MAX,
    ensures
        column(header, name) is Some <==> header.contains(name),
        column(header, name) matches Some(i) ==> i < header.len() && header[i as int] == name && !header.take(
            i as int,
        ).contains(name),
{
    if header.contains(name) {
        let i = lemma_first_occurrence(header, name, header.len() as int);
        assert(is_column(header, name, i as usize));
    }
    if let Some(i) = column(header, name) {
        assert(is_column(header, name, i));
        assert(header.contains(name));
        if header.take(i as int).contains(name) {
            let j = choose|j: int| 0 <= j < i && header.take(i as int)[j] == name;
            assert(header[j] == name);
        }
    }
}

proof fn lemma_first_occurrence(header: Cells, name: Seq<char>, n: int) -> (i: int)
    requires
        0 <= n <= header.len(),
        exists|j: int| 0 <= j < n && #[trigger] header[j] == name,
    ensures
        0 <= i < n,
        header[i] == name,
        forall|j: int| 0 <= j < i ==> header[j] != name,
    decreases n,
{
    if exists|j: int| 0 <= j < n - 1 && #[trigger] header[j] == name {
        lemma_first_occurrence(header, name, n - 1)
    } else {
        n - 1
    }
}

/// The time key of a row is the key of its timestamp cell, to the nanosecond, and its text key are
/// the bytes of that cell; a row that does not reach the column has neither.
pub proof fn keys_are_those_of_the_timestamp_cell(row: Cells, timestamp_idx: usize)
    ensures
        timestamp_idx < row.len() ==> time_key(row, timestamp_idx) == timestamp::timestamp_key(
            row[timestamp_idx as int],
        ),
        timestamp_idx < row.len() ==> text_key(row, timestamp_idx) == Some(
            vstd::utf8::encode_utf8(row[timestamp_idx as int]),
        ),
        timestamp_idx >= row.len() ==> time_key(row, timestamp_idx) is None && text_key(
            row,
            timestamp_idx,
        ) is None,
{
}

/// Rows are ordered by time if and only if the timestamp cell of each has a key, and the times are
/// then those keys.
pub proof fn times_are_used_if_every_row_has_one(rows: Seq<Cells>, timestamp_idx: usize)
    ensures
        times_of(rows, timestamp_idx) is Some <==> forall|i: int|
            0 <= i < rows.len() ==> timestamp_idx < (#[trigger] rows[i]).len()
                && timestamp::timestamp_key(rows[i][timestamp_idx as int]) is Some,
        times_of(rows, timestamp_idx) matches Some(times) ==> times.len() == rows.len() && forall|
            i: int,
        |
            0 <= i < rows.len() ==> timestamp::timestamp_key(rows[i][timestamp_idx as int]) == Some(
                #[trigger] times[i],
            ),
{
    if times_of(rows, timestamp_idx) is Some {
        assert forall|i: int| 0 <= i < rows.len() implies timestamp_idx < (#[trigger] rows[i]).len()
            && timestamp::timestamp_key(rows[i][timestamp_idx as int]) is Some by {
            assert(time_key(rows[i], timestamp_idx) is Some);
        }
    }
}

/// With given times a row of an earlier time comes out before a row of a later one, rows of the
/// same time come out in input order, and a row is left out if and only if an earlier row has its
/// time and its dedup key.
pub proof fn given_times_order_the_rows(
    rows: Seq<Cells>,
    timestamp_idx: usize,
    ignored: Option<usize>,
    times: Seq<i128>,
)
    requires
        rows.len() <= usize::MAX,
        times.len() == rows.len(),
    ensures
        ({
            let out = positions_by(rows, timestamp_idx, ignored, Some(times));
            &&& forall|p: int, q: int|
                0 <= p < q < out.len() ==> {
                    let (i, j) = (#[trigger] out[p] as int, #[trigger] out[q] as int);
                    times[i] < times[j] || (times[i] == times[j] && i < j)
                }
            &&& forall|i: usize| #[trigger]
                out.contains(i) <==> i < rows.len() && forall|j: int|
                    0 <= j < i ==> !(#[trigger] times[j] == times[i as int] && dedup::dedup_key(
                        rows[j],
                        ignored,
                    ) == dedup::dedup_key(rows[i as int], ignored))
        }),
{
    let dedups = dedup::dedup_keys(rows, ignored);
    let out = positions_by(rows, timestamp_idx, ignored, Some(times));
    dedup::timeline_exists::<i128>(times, dedups);
    dedup::timelines_are_sorted_first_copies::<i128>(out, times, dedups);
    assert forall|i: usize| #[trigger] out.contains(i) <==> i < rows.len() && forall|j: int|
        0 <= j < i ==> !(#[trigger] times[j] == times[i as int] && dedup::dedup_key(rows[j], ignored)
            == dedup::dedup_key(rows[i as int], ignored)) by {
        if i < rows.len() {
            assert(forall|j: int| 0 <= j <= i ==> #[trigger] dedups[j] == dedup::dedup_key(rows[j], ignored));
        }
    }
}

/// Without times the rows come out by the bytes of their timestamp cells, rows that have no such
/// cell first and rows with the same one in input order; a row is left out if and only if an earlier
/// row has its timestamp cell and its dedup key.
pub proof fn texts_order_the_rows(rows: Seq<Cells>, timestamp_idx: usize, ignored: Option<usize>)
    requires
        rows.len() <= usize::MAX,
    ensures
        ({
            let out = positions_by(rows, timestamp_idx, ignored, None);
            let at = timestamp_idx as int;
            &&& forall|p: int, q: int|
                0 <= p < q < out.len() ==> {
                    let (i, j) = (#[trigger] out[p] as int, #[trigger] out[q] as int);
                    ||| rows[i].len() <= at && at < rows[j].len()
                    ||| rows[i].len() <= at && rows[j].len() <= at && i < j
                    ||| at < rows[i].len() && at < rows[j].len() && order::lex_before(
                        vstd::utf8::encode_utf8(rows[i][at]),
                        vstd::utf8::encode_utf8(rows[j][at]),
                    )
                    ||| at < rows[i].len() && at < rows[j].len() && rows[i][at] == rows[j][at] && i < j
                }
            &&& forall|i: usize| #[trigger]
                out.contains(i) <==> i < rows.len() && forall|j: int|
                    0 <= j < i ==> !((at < (#[trigger] rows[j]).len() <==> at < rows[i as int].len())
                        && (at < rows[j].len() ==> rows[j][at] == rows[i as int][at])
                        && dedup::dedup_key(rows[j], ignored) == dedup::dedup_key(
                        rows[i as int],
                        ignored,
                    ))
        }),
{
    let at = timestamp_idx as int;
    let dedups = dedup::dedup_keys(rows, ignored);
    let ranks = text_ranks(rows, timestamp_idx);
    let out = positions_by(rows, timestamp_idx, ignored, None);
    dedup::timeline_exists::<Option<&str>>(ranks, dedups);
    dedup::timelines_are_sorted_first_copies::<Option<&str>>(out, ranks, dedups);
    assert forall|i: int, j: int| 0 <= i < rows.len() && 0 <= j < rows.len() implies (
    #[trigger] ranks[i] == #[trigger] ranks[j] <==> (at < rows[i].len() <==> at < rows[j].len()) && (at
        < rows[i].len() ==> rows[i][at] == rows[j][at])) by {
        if at < rows[i].len() && at < rows[j].len() {
            vstd::utf8::encode_utf8_decode_utf8(rows[i][at]);
            vstd::utf8::encode_utf8_decode_utf8(rows[j][at]);
        }
    }
    assert forall|p: int, q: int| 0 <= p < q < out.len() implies ({
        let (i, j) = (#[trigger] out[p] as int, #[trigger] out[q] as int);
        ||| rows[i].len() <= at && at < rows[j].len()
        ||| rows[i].len() <= at && rows[j].len() <= at && i < j
        ||| at < rows[i].len() && at < rows[j].len() && order::lex_before(
            vstd::utf8::encode_utf8(rows[i][at]),
            vstd::utf8::encode_utf8(rows[j][at]),
        )
        ||| at < rows[i].len() && at < rows[j].len() && rows[i][at] == rows[j][at] && i < j
    }) by {
        assert(out.contains(out[p]) && out.contains(out[q]));
        let (i, j) = (out[p] as int, out[q] as int);
        assert(ranks[i] == text_key(rows[i], timestamp_idx));
        assert(ranks[j] == text_key(rows[j], timestamp_idx));
    }
    assert forall|i: usize| #[trigger] out.contains(i) <==> i < rows.len() && forall|j: int|
        0 <= j < i ==> !((at < (#[trigger] rows[j]).len() <==> at < rows[i as int].len()) && (at
            < rows[j].len() ==> rows[j][at] == rows[i as int][at]) && dedup::dedup_key(
            rows[j],
            ignored,
        ) == dedup::dedup_key(rows[i as int], ignored)) by {
        if i < rows.len() {
            assert(forall|j: int| 0 <= j <= i ==> #[trigger] dedups[j] == dedup::dedup_key(rows[j], ignored));
            if dedup::survives(ranks, dedups, i as int) {
                assert forall|j: int| 0 <= j < i implies !((at < (#[trigger] rows[j]).len() <==> at
                    < rows[i as int].len()) && (at < rows[j].len() ==> rows[j][at]
                    == rows[i as int][at]) && dedup::dedup_key(rows[j], ignored)
                    == dedup::dedup_key(rows[i as int], ignored)) by {
                    assert(!(ranks[j] == ranks[i as int] && dedups[j] == dedups[i as int]));
                }
            }
        }
    }
}

/// Where the timestamp cell of every row has a key, rows come out by that key to the nanosecond: of
/// two rows the one with the strictly smaller key comes first, and rows are tied, and then in
/// input order, only where their keys are equal.
pub proof fn earlier_rows_come_out_first(
    rows: Seq<Cells>,
    timestamp_idx: usize,
    ignored: Option<usize>,
    p: int,
    q: int,
)
    requires
        rows.len() <= usize::MAX,
        forall|i: int|
            0 <= i < rows.len() ==> timestamp_idx < (#[trigger] rows[i]).len()
                && timestamp::timestamp_key(rows[i][timestamp_idx as int]) is Some,
        0 <= p < output_positions(rows, timestamp_idx, ignored).len(),
        0 <= q < output_positions(rows, timestamp_idx, ignored).len(),
    ensures
        ({
            let out = output_positions(rows, timestamp_idx, ignored);
            let (i, j) = (out[p] as int, out[q] as int);
            let earlier = timestamp::timestamp_key(rows[i][timestamp_idx as int])->0;
            let later = timestamp::timestamp_key(rows[j][timestamp_idx as int])->0;
            &&& i < rows.len()
            &&& j < rows.len()
            &&& earlier < later ==> p < q
            &&& earlier == later ==> (p < q <==> i < j)
        }),
{
    times_are_used_if_every_row_has_one(rows, timestamp_idx);
    let times = times_of(rows, timestamp_idx)->0;
    given_times_order_the_rows(rows, timestamp_idx, ignored, times);
    let out = output_positions(rows, timestamp_idx, ignored);
    let (i, j) = (out[p] as int, out[q] as int);
    assert(out.contains(out[p]) && out.contains(out[q]));
    assert(timestamp::timestamp_key(rows[i][timestamp_idx as int]) == Some(times[i]));
    assert(timestamp::timestamp_key(rows[j][timestamp_idx as int]) == Some(times[j]));
}

/// Where the timestamp cell of some row has no key, all rows come out by the bytes of these cells.
pub proof fn one_row_without_a_time_means_text_order(
    rows: Seq<Cells>,
    timestamp_idx: usize,
    ignored: Option<usize>,
    k: int,
)
    requires
        0 <= k < rows.len(),
        timestamp_idx < rows[k].len() ==> timestamp::timestamp_key(
            rows[k][timestamp_idx as int],
        ) is None,
    ensures
        output_positions(rows, timestamp_idx, ignored) == positions_by(
            rows,
            timestamp_idx,
            ignored,
            None,
        ),
{
    assert(time_key(rows[k], timestamp_idx) is None);
}

/// Where the timestamp cell of every row has a key, these keys are the times that order the rows.
pub proof fn rows_with_times_are_ordered_by_them(
    rows: Seq<Cells>,
    timestamp_idx: usize,
    ignored: Option<usize>,
)
    requires
        forall|i: int|
            0 <= i < rows.len() ==> timestamp_idx < (#[trigger] rows[i]).len()
                && timestamp::timestamp_key(rows[i][timestamp_idx as int]) is Some,
    ensures
        output_positions(rows, timestamp_idx, ignored) == positions_by(
            rows,
            timestamp_idx,
            ignored,
            Some(
                rows.map_values(
                    |row: Cells| timestamp::timestamp_key(row[timestamp_idx as int])->0,
                ),
            ),
        ),
{
    let times = rows.map_values(|row: Cells| timestamp::timestamp_key(row[timestamp_idx as int])->0);
    times_are_used_if_every_row_has_one(rows, timestamp_idx);
    assert(times_of(rows, timestamp_idx)->0 =~= times);
}

/// The rows that are put out are those at the output positions.
pub proof fn rows_follow_their_positions(rows: Seq<Cells>, timestamp_idx: usize, ignored: Option<usize>)
    ensures
        sorted_rows(rows, timestamp_idx, ignored).len() == output_positions(
            rows,
            timestamp_idx,
            ignored,
        ).len(),
        forall|p: int|
            0 <= p < sorted_rows(rows, timestamp_idx, ignored).len() ==> #[trigger] sorted_rows(
                rows,
                timestamp_idx,
                ignored,
            )[p] == rows[output_positions(rows, timestamp_idx, ignored)[p] as int],
{
}

} // verus!
