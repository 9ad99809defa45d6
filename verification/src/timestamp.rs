//! Timestamps as they stand in timeline files, and the key that orders them.
use chrono::{DateTime, Datelike, NaiveDate, NaiveDateTime};
use vstd::prelude::*;

verus! {

/// Nanoseconds in a second.
pub const NANOS_PER_SECOND: i128 = 1_000_000_000;

/// Seconds in a day without leap seconds.
pub const SECONDS_PER_DAY: i64 = 86_400;

/// The day number of 1 January 1970, counting 1 January of the year 1 as day 1.
pub const UNIX_EPOCH_DAY: i32 = 719_163;

/// The day number of the first date that chrono can represent, 1 January -262143.
pub const FIRST_DAY: i32 = -95_746_129;

/// The day number of the last date that chrono can represent, 31 December 262142.
pub const LAST_DAY: i32 = 95_745_399;

/// A moment: seconds since 1970 in UTC, and the nanoseconds that have passed since that second.
/// During a leap second the nanoseconds go on counting past a full second.
pub type Moment = (i64, u32);

/// Formats with an offset from UTC: the default one, then `--rfc-3339`, `--us-military-time`,
/// `--european-time`, `--us-time` and `--rfc-2822`. `%.f` takes any number of digits.
pub open spec fn offset_formats() -> Seq<Seq<char>> {
    seq![
        "%Y-%m-%d %H:%M:%S%.f %:z"@,
        "%Y-%m-%d %H:%M:%S%.f%:z"@,
        "%m-%d-%Y %H:%M:%S%.f %:z"@,
        "%d-%m-%Y %H:%M:%S%.f %:z"@,
        "%m-%d-%Y %I:%M:%S%.f %p %:z"@,
        "%a, %e %b %Y %H:%M:%S %:z"@,
    ]
}

/// Formats without an offset: `--iso-8601`, whose `Z` is literal, and the plain one.
pub open spec fn naive_formats() -> Seq<Seq<char>> {
    seq!["%Y-%m-%dT%H:%M:%S%.fZ"@, "%Y-%m-%d %H:%M:%S%.f"@]
}

/// Formats of a date alone.
pub open spec fn date_only_formats() -> Seq<Seq<char>> {
    seq!["%Y-%m-%d"@, "%m-%d-%Y"@, "%d-%m-%Y"@, "%a, %e %b %Y"@]
}

/// Whether a character has the Unicode property `White_Space`.
pub open spec fn is_white_space(c: char) -> bool {
    let code = c as u32;
    ||| 0x0009 <= code <= 0x000d  // tab to carriage return
    ||| code == 0x0020  // space
    ||| code == 0x0085  // next line
    ||| code == 0x00a0  // no-break space
    ||| code == 0x1680  // ogham space mark
    ||| 0x2000 <= code <= 0x200a  // en quad to hair space
    ||| code == 0x2028  // line separator
    ||| code == 0x2029  // paragraph separator
    ||| code == 0x202f  // narrow no-break space
    ||| code == 0x205f  // medium mathematical space
    ||| code == 0x3000  // ideographic space
}

/// `text` without the white space at its start.
pub open spec fn trimmed_start(text: Seq<char>) -> Seq<char>
    decreases text.len(),
{
    if text.len() > 0 && is_white_space(text.first()) {
        trimmed_start(text.drop_first())
    } else {
        text
    }
}

/// `text` without the white space at its end.
pub open spec fn trimmed_end(text: Seq<char>) -> Seq<char>
    decreases text.len(),
{
    if text.len() > 0 && is_white_space(text.last()) {
        trimmed_end(text.drop_last())
    } else {
        text
    }
}

/// `text` without the white space around it.
pub open spec fn trimmed(text: Seq<char>) -> Seq<char> {
    trimmed_end(trimmed_start(text))
}

/// `str::trim`: the text without the Unicode white space around it, which `is_white_space`
/// lists.
#[verifier::external_body]
fn trim(padded: &str) -> (text: &str)
    ensures
        text@ == trimmed(padded@),
{
    padded.trim()
}

/// What `chrono::DateTime::parse_from_str` makes of a text under a format with an offset: the
/// moment in UTC, or `None` where it fails.
pub uninterp spec fn parsed_offset(value: Seq<char>, format: Seq<char>) -> Option<(i64, u32)>;

/// What `chrono::NaiveDateTime::parse_from_str` makes of a text: the date and time as a moment
/// in UTC, or `None` where it fails.
pub uninterp spec fn parsed_naive(value: Seq<char>, format: Seq<char>) -> Option<(i64, u32)>;

/// What `chrono::NaiveDate::parse_from_str` makes of a text: the day number, or `None` where
/// it fails.
pub uninterp spec fn parsed_date(value: Seq<char>, format: Seq<char>) -> Option<i32>;

/// The day number of a date that chrono can represent.
pub open spec fn is_day(day: i32) -> bool {
    FIRST_DAY <= day <= LAST_DAY
}

/// The midnight in UTC at which a day begins, for a day that can be represented.
pub open spec fn midnight_of(day: i32) -> Option<Moment> {
    if is_day(day) {
        Some((((day - UNIX_EPOCH_DAY) * SECONDS_PER_DAY) as i64, 0))
    } else {
        None
    }
}

/// `chrono::DateTime::parse_from_str`, by the result's Unix time. What it returns is named by
/// `parsed_offset`, and nothing else is claimed of it.
#[verifier::external_body]
fn parse_offset(value: &str, format: &str) -> (moment: Option<Moment>)
    ensures
        moment == parsed_offset(value@, format@),
{
    match DateTime::parse_from_str(value, format) {
        Ok(parsed) => Some((parsed.timestamp(), parsed.timestamp_subsec_nanos())),
        Err(_) => None,
    }
}

/// `chrono::NaiveDateTime::parse_from_str`, by the Unix time of the result when it is taken as
/// UTC. What it returns is named by `parsed_naive`, and nothing else is claimed of it.
#[verifier::external_body]
fn parse_naive(value: &str, format: &str) -> (moment: Option<Moment>)
    ensures
        moment == parsed_naive(value@, format@),
{
    match NaiveDateTime::parse_from_str(value, format) {
        Ok(parsed) => {
            Some((parsed.and_utc().timestamp(), parsed.and_utc().timestamp_subsec_nanos()))
        },
        Err(_) => None,
    }
}

/// `chrono::NaiveDate::parse_from_str`, by the result's day number. What it returns is named by
/// `parsed_date`; it is a date that chrono can represent.
#[verifier::external_body]
fn parse_date(value: &str, format: &str) -> (day: Option<i32>)
    ensures
        day == parsed_date(value@, format@),
        day matches Some(d) ==> is_day(d),
{
    match NaiveDate::parse_from_str(value, format) {
        Ok(date) => Some(date.num_days_from_ce()),
        Err(_) => None,
    }
}

/// The midnight at which a day begins. There is none for a day beyond the calendar.
pub fn midnight(day: i32) -> (moment: Option<Moment>)
    ensures
        moment == midnight_of(day),
{
    if FIRST_DAY <= day && day <= LAST_DAY {
        Some(((day as i64 - UNIX_EPOCH_DAY as i64) * SECONDS_PER_DAY, 0))
    } else {
        None
    }
}

/// The key of a moment: nanoseconds since 1970.
pub open spec fn moment_key(moment: Moment) -> int {
    moment.0 * NANOS_PER_SECOND + moment.1
}

/// Turns a moment into a comparable nanosecond key. It covers every moment, not only those
/// whose nanoseconds fit 64 bits.
pub fn sort_key(moment: Moment) -> (key: i128)
    ensures
        key == moment_key(moment),
{
    moment.0 as i128 * NANOS_PER_SECOND + moment.1 as i128
}

/// The first success in a list of attempts.
pub open spec fn first_success<T>(attempts: Seq<Option<T>>) -> Option<T>
    decreases attempts.len(),
{
    if attempts.len() == 0 {
        None
    } else if attempts.first() is Some {
        attempts.first()
    } else {
        first_success(attempts.drop_first())
    }
}

proof fn lemma_first_success<T>(attempts: Seq<Option<T>>, k: int)
    requires
        0 <= k <= attempts.len(),
        forall|j: int| 0 <= j < k ==> attempts[j] is None,
        k < attempts.len() ==> attempts[k] is Some,
    ensures
        first_success(attempts) == if k < attempts.len() {
            attempts[k]
        } else {
            None
        },
    decreases k,
{
    if k > 0 {
        assert(attempts[0] is None);
        assert forall|j: int| 0 <= j < k - 1 implies attempts.drop_first()[j] is None by {
            assert(attempts[j + 1] is None);
        }
        lemma_first_success(attempts.drop_first(), k - 1);
    }
}

/// What the formats with an offset make of a text, in their order.
pub open spec fn offset_attempts(value: Seq<char>) -> Seq<Option<Moment>> {
    offset_formats().map_values(|format: Seq<char>| parsed_offset(value, format))
}

/// What the formats without an offset make of a text, in their order.
pub open spec fn naive_attempts(value: Seq<char>) -> Seq<Option<Moment>> {
    naive_formats().map_values(|format: Seq<char>| parsed_naive(value, format))
}

/// What the formats of a date alone make of a text, in their order.
pub open spec fn date_attempts(value: Seq<char>) -> Seq<Option<i32>> {
    date_only_formats().map_values(|format: Seq<char>| parsed_date(value, format))
}

fn first_offset(value: &str) -> (moment: Option<Moment>)
    ensures
        moment == first_success(offset_attempts(value@)),
{
    let formats = [
        "%Y-%m-%d %H:%M:%S%.f %:z",
        "%Y-%m-%d %H:%M:%S%.f%:z",
        "%m-%d-%Y %H:%M:%S%.f %:z",
        "%d-%m-%Y %H:%M:%S%.f %:z",
        "%m-%d-%Y %I:%M:%S%.f %p %:z",
        "%a, %e %b %Y %H:%M:%S %:z",
    ];
    let ghost attempts = offset_attempts(value@);
    for k in 0..formats.len()
        invariant
            attempts == offset_attempts(value@),
            attempts.len() == formats.len(),
            forall|j: int| 0 <= j < formats.len() ==> (#[trigger] formats@[j])@ == offset_formats()[j],
            forall|j: int| 0 <= j < k ==> attempts[j] is None,
    {
        let attempt = parse_offset(value, formats[k]);
        assert(attempt == attempts[k as int]);
        if attempt.is_some() {
            proof {
                lemma_first_success(attempts, k as int);
            }
            return attempt;
        }
    }
    proof {
        lemma_first_success(attempts, attempts.len() as int);
    }
    None
}

fn first_naive(value: &str) -> (moment: Option<Moment>)
    ensures
        moment == first_success(naive_attempts(value@)),
{
    let formats = ["%Y-%m-%dT%H:%M:%S%.fZ", "%Y-%m-%d %H:%M:%S%.f"];
    let ghost attempts = naive_attempts(value@);
    for k in 0..formats.len()
        invariant
            attempts == naive_attempts(value@),
            attempts.len() == formats.len(),
            forall|j: int| 0 <= j < formats.len() ==> (#[trigger] formats@[j])@ == naive_formats()[j],
            forall|j: int| 0 <= j < k ==> attempts[j] is None,
    {
        let attempt = parse_naive(value, formats[k]);
        assert(attempt == attempts[k as int]);
        if attempt.is_some() {
            proof {
                lemma_first_success(attempts, k as int);
            }
            return attempt;
        }
    }
    proof {
        lemma_first_success(attempts, attempts.len() as int);
    }
    None
}

fn first_date(value: &str) -> (day: Option<i32>)
    ensures
        day == first_success(date_attempts(value@)),
        day matches Some(d) ==> is_day(d),
{
    let formats = ["%Y-%m-%d", "%m-%d-%Y", "%d-%m-%Y", "%a, %e %b %Y"];
    let ghost attempts = date_attempts(value@);
    for k in 0..formats.len()
        invariant
            attempts == date_attempts(value@),
            attempts.len() == formats.len(),
            forall|j: int| 0 <= j < formats.len() ==> (#[trigger] formats@[j])@ == date_only_formats()[j],
            forall|j: int| 0 <= j < k ==> attempts[j] is None,
    {
        let attempt = parse_date(value, formats[k]);
        assert(attempt == attempts[k as int]);
        if attempt.is_some() {
            proof {
                lemma_first_success(attempts, k as int);
            }
            return attempt;
        }
    }
    proof {
        lemma_first_success(attempts, attempts.len() as int);
    }
    None
}

/// The key of a timestamp by what the three groups of formats made of it: the first group that
/// succeeded decides, and a date alone stands for its midnight in UTC.
pub open spec fn chosen_key(offset: Option<Moment>, naive: Option<Moment>, day: Option<i32>) -> Option<
    i128,
> {
    let moment = match (offset, naive, day) {
        (Some(moment), _, _) => Some(moment),
        (None, Some(moment), _) => Some(moment),
        (None, None, Some(day)) => midnight_of(day),
        (None, None, None) => None,
    };
    match moment {
        Some(moment) => Some(moment_key(moment) as i128),
        None => None,
    }
}

/// Chooses the key of a timestamp by what the three groups of formats made of it.
pub fn choose_key(offset: Option<Moment>, naive: Option<Moment>, day: Option<i32>) -> (key: Option<i128>)
    ensures
        key == chosen_key(offset, naive, day),
{
    let moment = match (offset, naive, day) {
        (Some(moment), _, _) => Some(moment),
        (None, Some(moment), _) => Some(moment),
        (None, None, Some(day)) => midnight(day),
        (None, None, None) => None,
    };
    match moment {
        Some(moment) => Some(sort_key(moment)),
        None => None,
    }
}

/// The key of a timestamp cell, or `None` where no known format matches it.
pub open spec fn timestamp_key(cell: Seq<char>) -> Option<i128> {
    let value = trimmed(cell);
    chosen_key(
        first_success(offset_attempts(value)),
        first_success(naive_attempts(value)),
        first_success(date_attempts(value)),
    )
}

/// None of the known formats matches `value`.
pub open spec fn no_format_matches(value: Seq<char>) -> bool {
    &&& first_success(offset_attempts(value)) is None
    &&& first_success(naive_attempts(value)) is None
    &&& first_success(date_attempts(value)) is None
}

/// Parses a timestamp cell into a comparable nanosecond value.
///
/// Timestamps with an offset are normalized to UTC, the others are taken at face value. The
/// result is `None` when none of the known formats matches.
pub fn parse_timestamp(cell: &str) -> (key: Option<i128>)
    ensures
        key == timestamp_key(cell@),
        key is None <==> no_format_matches(trimmed(cell@)),
{
    let value = trim(cell);
    let offset = first_offset(value);
    let naive = if offset.is_none() {
        first_naive(value)
    } else {
        None
    };
    let day = if offset.is_none() && naive.is_none() {
        first_date(value)
    } else {
        None
    };
    choose_key(offset, naive, day)
}

/// An earlier moment has a smaller key. The one exception are the last moments of a leap second,
/// whose nanoseconds reach into the seconds after it.
pub proof fn earlier_moments_have_smaller_keys(a: Moment, b: Moment)
    requires
        a.0 < b.0 || (a.0 == b.0 && a.1 < b.1),
        a.0 < b.0 ==> a.1 < (b.0 - a.0) * NANOS_PER_SECOND,
    ensures
        moment_key(a) < moment_key(b),
{
    assert(a.0 * NANOS_PER_SECOND + (b.0 - a.0) * NANOS_PER_SECOND == b.0 * NANOS_PER_SECOND)
        by (nonlinear_arith);
}

/// The key of a moment fits the integer type of keys, so no moment is beyond the order.
pub proof fn every_moment_has_a_key(moment: Moment)
    ensures
        chosen_key(Some(moment), None, None) == Some(moment_key(moment) as i128),
        moment_key(moment) as i128 == moment_key(moment),
{
}

/// A date alone stands for its midnight in UTC, for every date that chrono can represent.
pub proof fn dates_stand_for_midnight(day: i32)
    requires
        is_day(day),
    ensures
        chosen_key(None, None, Some(day)) == Some(
            ((day - UNIX_EPOCH_DAY) * SECONDS_PER_DAY * NANOS_PER_SECOND) as i128,
        ),
{
}

/// `text` is all white space.
pub open spec fn all_white(text: Seq<char>) -> bool {
    forall|i: int| 0 <= i < text.len() ==> is_white_space(#[trigger] text[i])
}

proof fn lemma_trimmed_start_skips(pad: Seq<char>, text: Seq<char>)
    requires
        all_white(pad),
    ensures
        trimmed_start(pad + text) == trimmed_start(text),
    decreases pad.len(),
{
    if pad.len() == 0 {
        assert(pad + text =~= text);
    } else {
        assert((pad + text).first() == pad[0]);
        assert((pad + text).drop_first() =~= pad.drop_first() + text);
        lemma_trimmed_start_skips(pad.drop_first(), text);
    }
}

proof fn lemma_trimmed_end_skips(text: Seq<char>, pad: Seq<char>)
    requires
        all_white(pad),
    ensures
        trimmed_end(text + pad) == trimmed_end(text),
    decreases pad.len(),
{
    if pad.len() == 0 {
        assert(text + pad =~= text);
    } else {
        assert((text + pad).last() == pad.last());
        assert((text + pad).drop_last() =~= text + pad.drop_last());
        lemma_trimmed_end_skips(text, pad.drop_last());
    }
}

/// What `trimmed_start` leaves is empty for all white space, and a suffix is left alone
/// where something is left.
proof fn lemma_trimmed_start_keeps(text: Seq<char>, pad: Seq<char>)
    ensures
        all_white(text) ==> trimmed_start(text).len() == 0,
        !all_white(text) ==> trimmed_start(text + pad) == trimmed_start(text) + pad,
    decreases text.len(),
{
    if text.len() > 0 {
        assert((text + pad).first() == text.first());
        if is_white_space(text.first()) {
            let rest = text.drop_first();
            assert((text + pad).drop_first() =~= rest + pad);
            lemma_trimmed_start_keeps(rest, pad);
            if all_white(rest) {
                assert forall|i: int| 0 <= i < text.len() implies is_white_space(#[trigger] text[i]) by {
                    if i > 0 {
                        assert(rest[i - 1] == text[i]);
                    }
                }
            }
        }
    }
}

/// White space around a timestamp does not change its key.
pub proof fn padding_does_not_change_the_key(before: Seq<char>, cell: Seq<char>, after: Seq<char>)
    requires
        all_white(before),
        all_white(after),
    ensures
        timestamp_key(before + cell + after) == timestamp_key(cell),
{
    assert(before + cell + after =~= before + (cell + after));
    lemma_trimmed_start_skips(before, cell + after);
    lemma_trimmed_start_keeps(cell, after);
    if all_white(cell) {
        lemma_trimmed_start_skips(cell, after);
        lemma_trimmed_start_keeps(after, Seq::empty());
        assert(trimmed_start(cell + after) =~= trimmed_start(cell));
    } else {
        lemma_trimmed_end_skips(trimmed_start(cell), after);
    }
}

/// The key of a moment counts every nanosecond since 1970, for moments before and after it.
pub proof fn keys_count_nanoseconds(moment: Moment)
    ensures
        moment_key(moment) == moment.0 * 1_000_000_000 + moment.1,
{
}

/// Two moments have the same key only where they are equally many nanoseconds from 1970, and keys
/// are as far apart as the moments are.
pub proof fn keys_are_as_far_apart_as_moments(a: Moment, b: Moment)
    ensures
        moment_key(b) - moment_key(a) == (b.0 - a.0) * 1_000_000_000 + (b.1 - a.1),
{
}

/// A moment with an offset decides alone, and its key counts its nanoseconds.
pub proof fn offset_moments_keep_their_nanoseconds(
    moment: Moment,
    naive: Option<Moment>,
    day: Option<i32>,
)
    ensures
        chosen_key(Some(moment), naive, day) is Some,
        chosen_key(Some(moment), naive, day)->0 == moment.0 * 1_000_000_000 + moment.1,
{
}

/// Without an offset the moment decides, whatever the date is, and its key counts its nanoseconds.
pub proof fn naive_moments_keep_their_nanoseconds(moment: Moment, day: Option<i32>)
    ensures
        chosen_key(None, Some(moment), day) is Some,
        chosen_key(None, Some(moment), day)->0 == moment.0 * 1_000_000_000 + moment.1,
{
}

/// A date alone has the key of its midnight, each day 86,400 seconds after the one before; a day
/// beyond the calendar has none, and without any moment or date there is no key.
pub proof fn dates_count_whole_days(day: i32)
    ensures
        -95_746_129 <= day <= 95_745_399 <==> midnight_of(day) is Some,
        midnight_of(day) matches Some(moment) ==> moment.0 == (day - 719_163) * 86_400 && moment.1 == 0,
        chosen_key(None, None, Some(day)) is Some <==> -95_746_129 <= day <= 95_745_399,
        -95_746_129 <= day <= 95_745_399 ==> chosen_key(None, None, Some(day))->0 == (day - 719_163)
            * 86_400 * 1_000_000_000,
        chosen_key(None, None, None) is None,
{
}

/// The characters that count as white space.
pub proof fn white_space_characters(c: char)
    ensures
        is_white_space(c) <==> {
            ||| c == '\u{9}' || c == '\u{a}' || c == '\u{b}' || c == '\u{c}' || c == '\u{d}'
            ||| c == ' ' || c == '\u{85}' || c == '\u{a0}' || c == '\u{1680}'
            ||| c == '\u{2000}' || c == '\u{2001}' || c == '\u{2002}' || c == '\u{2003}'
            ||| c == '\u{2004}' || c == '\u{2005}' || c == '\u{2006}' || c == '\u{2007}'
            ||| c == '\u{2008}' || c == '\u{2009}' || c == '\u{200a}'
            ||| c == '\u{2028}' || c == '\u{2029}' || c == '\u{202f}' || c == '\u{205f}'
            ||| c == '\u{3000}'
        },
{
}

/// Trimming takes off the white space around a text and nothing else: what stands between a
/// character at its start and one at its end that are no white space is left as it is.
pub proof fn trimming_leaves_the_text(before: Seq<char>, value: Seq<char>, after: Seq<char>)
    requires
        forall|i: int| 0 <= i < before.len() ==> is_white_space(#[trigger] before[i]),
        forall|i: int| 0 <= i < after.len() ==> is_white_space(#[trigger] after[i]),
        value.len() > 0 ==> !is_white_space(value[0]) && !is_white_space(value[value.len() - 1]),
    ensures
        trimmed(before + value + after) == value,
{
    assert(before + value + after =~= before + (value + after));
    assert(all_white(before) && all_white(after));
    lemma_trimmed_start_skips(before, value + after);
    if value.len() == 0 {
        assert(value + after =~= after);
        lemma_trimmed_start_keeps(after, Seq::empty());
        assert(trimmed_start(after) =~= value);
    } else {
        assert((value + after).first() == value[0]);
        lemma_trimmed_end_skips(value, after);
    }
}

/// The formats that are tried, in order.
pub proof fn formats_in_order()
    ensures
        offset_formats().len() == 6,
        offset_formats()[0] == "%Y-%m-%d %H:%M:%S%.f %:z"@,
        offset_formats()[1] == "%Y-%m-%d %H:%M:%S%.f%:z"@,
        offset_formats()[2] == "%m-%d-%Y %H:%M:%S%.f %:z"@,
        offset_formats()[3] == "%d-%m-%Y %H:%M:%S%.f %:z"@,
        offset_formats()[4] == "%m-%d-%Y %I:%M:%S%.f %p %:z"@,
        offset_formats()[5] == "%a, %e %b %Y %H:%M:%S %:z"@,
        naive_formats().len() == 2,
        naive_formats()[0] == "%Y-%m-%dT%H:%M:%S%.fZ"@,
        naive_formats()[1] == "%Y-%m-%d %H:%M:%S%.f"@,
        date_only_formats().len() == 4,
        date_only_formats()[0] == "%Y-%m-%d"@,
        date_only_formats()[1] == "%m-%d-%Y"@,
        date_only_formats()[2] == "%d-%m-%Y"@,
        date_only_formats()[3] == "%a, %e %b %Y"@,
{
}

/// The first format with an offset that matches the text of a cell decides: the key of the cell
/// counts the nanoseconds of the moment that it gives.
pub proof fn first_offset_format_decides(cell: Seq<char>, k: int, moment: Moment)
    requires
        0 <= k < offset_formats().len(),
        parsed_offset(trimmed(cell), offset_formats()[k]) == Some(moment),
        forall|j: int|
            0 <= j < k ==> parsed_offset(trimmed(cell), #[trigger] offset_formats()[j]) is None,
    ensures
        timestamp_key(cell) is Some,
        timestamp_key(cell)->0 == moment.0 * 1_000_000_000 + moment.1,
        !no_format_matches(trimmed(cell)),
{
    let attempts = offset_attempts(trimmed(cell));
    assert forall|j: int| 0 <= j < k implies attempts[j] is None by {
        assert(parsed_offset(trimmed(cell), offset_formats()[j]) is None);
    }
    lemma_first_success(attempts, k);
}

/// Where no format with an offset matches, the first that matches of those without one decides in
/// the same way.
pub proof fn first_naive_format_decides(cell: Seq<char>, k: int, moment: Moment)
    requires
        forall|j: int|
            0 <= j < offset_formats().len() ==> parsed_offset(
                trimmed(cell),
                #[trigger] offset_formats()[j],
            ) is None,
        0 <= k < naive_formats().len(),
        parsed_naive(trimmed(cell), naive_formats()[k]) == Some(moment),
        forall|j: int|
            0 <= j < k ==> parsed_naive(trimmed(cell), #[trigger] naive_formats()[j]) is None,
    ensures
        timestamp_key(cell) is Some,
        timestamp_key(cell)->0 == moment.0 * 1_000_000_000 + moment.1,
        !no_format_matches(trimmed(cell)),
{
    lemma_no_offset(trimmed(cell));
    let attempts = naive_attempts(trimmed(cell));
    assert forall|j: int| 0 <= j < k implies attempts[j] is None by {
        assert(parsed_naive(trimmed(cell), naive_formats()[j]) is None);
    }
    lemma_first_success(attempts, k);
}

/// Where only formats of a date alone match, the first of them decides, and the key is that of the
/// midnight at which the day begins.
pub proof fn first_date_format_decides(cell: Seq<char>, k: int, day: i32)
    requires
        forall|j: int|
            0 <= j < offset_formats().len() ==> parsed_offset(
                trimmed(cell),
                #[trigger] offset_formats()[j],
            ) is None,
        forall|j: int|
            0 <= j < naive_formats().len() ==> parsed_naive(
                trimmed(cell),
                #[trigger] naive_formats()[j],
            ) is None,
        0 <= k < date_only_formats().len(),
        parsed_date(trimmed(cell), date_only_formats()[k]) == Some(day),
        forall|j: int|
            0 <= j < k ==> parsed_date(trimmed(cell), #[trigger] date_only_formats()[j]) is None,
        -95_746_129 <= day <= 95_745_399,
    ensures
        timestamp_key(cell) is Some,
        timestamp_key(cell)->0 == (day - 719_163) * 86_400 * 1_000_000_000,
        !no_format_matches(trimmed(cell)),
{
    lemma_no_offset(trimmed(cell));
    lemma_no_naive(trimmed(cell));
    let attempts = date_attempts(trimmed(cell));
    assert forall|j: int| 0 <= j < k implies attempts[j] is None by {
        assert(parsed_date(trimmed(cell), date_only_formats()[j]) is None);
    }
    lemma_first_success(attempts, k);
}

/// A cell that matches no format at all has no key.
pub proof fn unknown_formats_have_no_key(cell: Seq<char>)
    requires
        forall|j: int|
            0 <= j < offset_formats().len() ==> parsed_offset(
                trimmed(cell),
                #[trigger] offset_formats()[j],
            ) is None,
        forall|j: int|
            0 <= j < naive_formats().len() ==> parsed_naive(
                trimmed(cell),
                #[trigger] naive_formats()[j],
            ) is None,
        forall|j: int|
            0 <= j < date_only_formats().len() ==> parsed_date(
                trimmed(cell),
                #[trigger] date_only_formats()[j],
            ) is None,
    ensures
        timestamp_key(cell) is None,
        no_format_matches(trimmed(cell)),
{
    lemma_no_offset(trimmed(cell));
    lemma_no_naive(trimmed(cell));
    let attempts = date_attempts(trimmed(cell));
    assert forall|j: int| 0 <= j < attempts.len() implies attempts[j] is None by {
        assert(parsed_date(trimmed(cell), date_only_formats()[j]) is None);
    }
    lemma_first_success(attempts, attempts.len() as int);
}

proof fn lemma_no_offset(value: Seq<char>)
    requires
        forall|j: int|
            0 <= j < offset_formats().len() ==> parsed_offset(
                value,
                #[trigger] offset_formats()[j],
            ) is None,
    ensures
        first_success(offset_attempts(value)) is None,
{
    let attempts = offset_attempts(value);
    assert forall|j: int| 0 <= j < attempts.len() implies attempts[j] is None by {
        assert(parsed_offset(value, offset_formats()[j]) is None);
    }
    lemma_first_success(attempts, attempts.len() as int);
}

proof fn lemma_no_naive(value: Seq<char>)
    requires
        forall|j: int|
            0 <= j < naive_formats().len() ==> parsed_naive(
                value,
                #[trigger] naive_formats()[j],
            ) is None,
    ensures
        first_success(naive_attempts(value)) is None,
{
    let attempts = naive_attempts(value);
    assert forall|j: int| 0 <= j < attempts.len() implies attempts[j] is None by {
        assert(parsed_naive(value, naive_formats()[j]) is None);
    }
    lemma_first_success(attempts, attempts.len() as int);
}

} // verus!
