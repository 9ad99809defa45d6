use timeline_csv::timestamp::{choose_key, midnight, parse_timestamp, sort_key};

const SECOND: i128 = 1_000_000_000;

/// 13 December 2021, 00:00:00 UTC.
const DAY: i128 = 1_639_353_600 * SECOND;

#[test]
fn parses_all_supported_timestamp_formats() {
    assert!(parse_timestamp("2021-12-13 09:00:00.000 +09:00").is_some());
    assert!(parse_timestamp("2021-12-13T09:00:00.000000Z").is_some());
    assert!(parse_timestamp("12-13-2021 09:00:00.000 +09:00").is_some());
    assert!(parse_timestamp("2021-12-13").is_some());
    assert!(parse_timestamp("not a timestamp").is_none());
}

#[test]
fn earlier_timestamp_orders_first() {
    let earlier = parse_timestamp("2021-12-13 09:00:00.000 +09:00").unwrap();
    let later = parse_timestamp("2021-12-13 09:05:00.000 +09:00").unwrap();
    assert!(earlier < later);
}

#[test]
fn timestamps_before_the_nanosecond_epoch_still_sort() {
    let ancient = parse_timestamp("1601-01-01").unwrap();
    let modern = parse_timestamp("2021-12-13").unwrap();
    assert!(ancient < modern);
}

#[test]
fn every_format_gives_the_instant() {
    let nine = DAY + 9 * 3600 * SECOND;
    assert_eq!(parse_timestamp("2021-12-13 09:00:00.000 +09:00"), Some(DAY));
    assert_eq!(parse_timestamp("2021-12-13 09:00:00.000000+09:00"), Some(DAY));
    assert_eq!(parse_timestamp("12-13-2021 09:00:00.000 +09:00"), Some(DAY));
    assert_eq!(parse_timestamp("13-12-2021 09:00:00.000 +09:00"), Some(DAY));
    assert_eq!(parse_timestamp("12-13-2021 09:00:00.000 AM +09:00"), Some(DAY));
    assert_eq!(
        parse_timestamp("12-13-2021 09:00:00.000 PM +09:00"),
        Some(DAY + 12 * 3600 * SECOND)
    );
    assert_eq!(parse_timestamp("Mon, 13 Dec 2021 09:00:00 +09:00"), Some(DAY));
    assert_eq!(parse_timestamp("2021-12-13T09:00:00.000000Z"), Some(nine));
    assert_eq!(parse_timestamp("2021-12-13 09:00:00"), Some(nine));
    assert_eq!(parse_timestamp("2021-12-13"), Some(DAY));
    assert_eq!(parse_timestamp("12-13-2021"), Some(DAY));
    assert_eq!(parse_timestamp("13-12-2021"), Some(DAY));
    assert_eq!(parse_timestamp("Mon, 13 Dec 2021"), Some(DAY));
}

#[test]
fn fractions_of_a_second_count() {
    assert_eq!(parse_timestamp("1970-01-01 00:00:01.5 +00:00"), Some(1_500_000_000));
    assert_eq!(parse_timestamp("1970-01-01T00:00:00.000000001Z"), Some(1));
    assert_eq!(parse_timestamp("1969-12-31 23:59:59.25 +00:00"), Some(-750_000_000));
}

#[test]
fn an_ambiguous_date_is_read_month_first() {
    let second_of_january = parse_timestamp("2021-01-02").unwrap();
    assert_eq!(parse_timestamp("01-02-2021"), Some(second_of_january));
    assert_eq!(parse_timestamp("01-02-2021 00:00:00 +00:00"), Some(second_of_january));
}

#[test]
fn white_space_around_a_timestamp_is_ignored() {
    assert_eq!(parse_timestamp(" \t2021-12-13 \u{3000}\n"), Some(DAY));
    assert_eq!(parse_timestamp("   "), None);
    assert_eq!(parse_timestamp(""), None);
}

#[test]
fn the_key_counts_nanoseconds() {
    assert_eq!(sort_key((1, 5)), 1_000_000_005);
    assert_eq!(sort_key((-1, 999_999_999)), -1);
    assert_eq!(sort_key((i64::MAX, u32::MAX)), 9_223_372_036_854_775_811_294_967_295);
    assert_eq!(sort_key((i64::MIN, 0)), -9_223_372_036_854_775_808_000_000_000);
    assert!(sort_key((10, 999_999_999)) < sort_key((11, 0)));
}

#[test]
fn the_last_moments_of_a_leap_second_reach_into_the_next_second() {
    let leap = parse_timestamp("2016-12-31 23:59:60.5 +00:00").unwrap();
    let midnight = parse_timestamp("2017-01-01 00:00:00 +00:00").unwrap();
    assert_eq!(leap, midnight + 500_000_000);
}

#[test]
fn the_first_group_of_formats_that_succeeds_decides() {
    assert_eq!(choose_key(Some((1, 0)), Some((2, 0)), Some(3)), Some(SECOND));
    assert_eq!(choose_key(None, Some((2, 0)), Some(3)), Some(2 * SECOND));
    assert_eq!(choose_key(None, None, None), None);
}

#[test]
fn a_date_stands_for_its_midnight() {
    // day 719163 is 1 January 1970
    assert_eq!(choose_key(None, None, Some(719_163)), Some(0));
    assert_eq!(choose_key(None, None, Some(719_164)), Some(86_400 * SECOND));
    assert_eq!(choose_key(None, None, Some(1)), Some(-719_162 * 86_400 * SECOND));
    // the first and the last date that can be represented, and their neighbours
    assert!(choose_key(None, None, Some(-95_746_129)).is_some());
    assert!(choose_key(None, None, Some(-95_746_130)).is_none());
    assert!(choose_key(None, None, Some(95_745_399)).is_some());
    assert!(choose_key(None, None, Some(95_745_400)).is_none());
    assert!(choose_key(None, None, Some(i32::MAX)).is_none());
    assert!(choose_key(None, None, Some(i32::MIN)).is_none());
}

#[test]
fn exactly_the_unicode_white_space_is_trimmed() {
    for code in 0..0x3100 {
        let Some(c) = char::from_u32(code) else {
            continue;
        };
        let white = matches!(
            code,
            0x09..=0x0d
                | 0x20
                | 0x85
                | 0xa0
                | 0x1680
                | 0x2000..=0x200a
                | 0x2028
                | 0x2029
                | 0x202f
                | 0x205f
                | 0x3000
        );
        let key = parse_timestamp(&format!("2021-12-13{c}"));
        assert_eq!(key.is_some(), white, "{code:x}");
    }
    for code in 0x3100..=0x10ffff {
        assert!(!char::from_u32(code).is_some_and(|c| c.is_whitespace()));
    }
}

#[test]
fn the_first_and_the_last_date_have_keys() {
    let first = (-95_746_129 - 719_163) * 86_400 * SECOND;
    let last = (95_745_399 - 719_163) * 86_400 * SECOND;
    assert_eq!(parse_timestamp("-262143-01-01"), Some(first));
    assert_eq!(parse_timestamp("+262142-12-31"), Some(last));
    assert_eq!(parse_timestamp("-262144-12-31"), None);
    assert_eq!(parse_timestamp("+262143-01-01"), None);
}

#[test]
fn midnight_counts_seconds_since_1970() {
    assert_eq!(midnight(719_163), Some((0, 0)));
    assert_eq!(midnight(719_162), Some((-86_400, 0)));
    assert_eq!(midnight(95_745_400), None);
    for (text, day) in [("1601-01-01", 584_389), ("2000-02-29", 730_179), ("2021-12-13", 738_137)] {
        let (seconds, _) = midnight(day).unwrap();
        assert_eq!(parse_timestamp(text), Some(seconds as i128 * SECOND), "{text}");
        assert_eq!(parse_timestamp(&format!("{text} 00:00:00")), parse_timestamp(text));
    }
}
