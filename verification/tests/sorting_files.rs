use timeline_csv::merge::{sort_csv, SortCsvError};
use timeline_csv::output::UnequalLengths;
use timeline_csv::records::CsvFault;

/// Sorts one file and returns the lines of the output.
fn run_sort_csv(input: &str) -> Vec<String> {
    run_on_files(&[input])
}

/// Sorts several files and returns the lines of the output.
fn run_on_files(inputs: &[&str]) -> Vec<String> {
    let files: Vec<Vec<u8>> = inputs.iter().map(|text| text.as_bytes().to_vec()).collect();
    let bytes = sort_csv(&files).result.unwrap();
    String::from_utf8(bytes).unwrap().lines().map(str::to_string).collect()
}

#[test]
fn sorts_by_timestamp_and_drops_evtxfile_duplicates() {
    let input = "\"Timestamp\",\"RuleTitle\",\"Computer\",\"EvtxFile\"\n\
\"2021-12-13 09:05:00.000 +09:00\",\"Later\",\"host1\",\"a.evtx\"\n\
\"2021-12-13 09:00:00.000 +09:00\",\"Earlier\",\"host1\",\"a.evtx\"\n\
\"2021-12-13 09:00:00.000 +09:00\",\"Earlier\",\"host1\",\"backup.evtx\"\n";
    let lines = run_sort_csv(input);

    assert_eq!(
        lines[0],
        "\"Timestamp\",\"RuleTitle\",\"Computer\",\"EvtxFile\""
    );
    assert_eq!(lines.len(), 3);
    assert!(lines[1].contains("Earlier"));
    assert!(lines[2].contains("Later"));
}

#[test]
fn duplicates_sharing_a_timestamp_are_removed_even_when_not_adjacent() {
    let input = "\"Timestamp\",\"RuleTitle\",\"Computer\",\"EvtxFile\"\n\
\"2021-12-13 09:00:00.000 +09:00\",\"Dup\",\"host1\",\"a.evtx\"\n\
\"2021-12-13 09:00:00.000 +09:00\",\"Other\",\"host1\",\"a.evtx\"\n\
\"2021-12-13 09:00:00.000 +09:00\",\"Dup\",\"host1\",\"backup.evtx\"\n";
    let lines = run_sort_csv(input);

    assert_eq!(lines.len(), 3);
    assert_eq!(lines.iter().filter(|line| line.contains("Dup")).count(), 1);
}

#[test]
fn duplicates_are_removed_when_offsets_differ_within_one_timestamp_group() {
    let input = "\"Timestamp\",\"RuleTitle\",\"Computer\",\"EvtxFile\"\n\
\"2021-12-13 09:00:00.000 +09:00\",\"Dup\",\"host1\",\"a.evtx\"\n\
\"2021-12-13 00:00:00.000 +00:00\",\"Other\",\"host1\",\"a.evtx\"\n\
\"2021-12-13 09:00:00.000 +09:00\",\"Dup\",\"host1\",\"backup.evtx\"\n";
    let lines = run_sort_csv(input);

    assert_eq!(lines.len(), 3);
    assert_eq!(lines.iter().filter(|line| line.contains("Dup")).count(), 1);
}

#[test]
fn rows_sharing_a_timestamp_keep_their_input_order() {
    let input = "\"Timestamp\",\"RuleTitle\",\"Computer\",\"EvtxFile\"\n\
\"2021-12-13 09:00:00.000 +09:00\",\"Zulu\",\"host1\",\"a.evtx\"\n\
\"2021-12-13 09:00:00.000 +09:00\",\"Alpha\",\"host1\",\"a.evtx\"\n";
    let lines = run_sort_csv(input);

    assert_eq!(lines.len(), 3);
    assert!(lines[1].contains("Zulu"));
    assert!(lines[2].contains("Alpha"));
}

#[test]
fn lexical_fallback_still_sorts_and_dedups() {
    let input = "\"Timestamp\",\"RuleTitle\",\"Computer\",\"EvtxFile\"\n\
\"zzz not a timestamp\",\"Unparsable\",\"host1\",\"a.evtx\"\n\
\"2021-12-13 09:00:00.000 +09:00\",\"Dup\",\"host1\",\"a.evtx\"\n\
\"2021-12-13 09:00:00.000 +09:00\",\"Dup\",\"host1\",\"backup.evtx\"\n";
    let lines = run_sort_csv(input);

    assert_eq!(lines.len(), 3);
    assert!(lines[1].contains("Dup"));
    assert!(lines[2].contains("Unparsable"));
}

#[test]
fn one_unknown_timestamp_orders_all_rows_as_text() {
    // by time "2021-12-13 09:00:00 +09:00" comes before "2021-12-13 01:00:00 +00:00"
    let timed = "Timestamp,Id\n2021-12-13 09:00:00 +09:00,a\n2021-12-13 01:00:00 +00:00,b\n";
    assert_eq!(run_sort_csv(timed)[1], "\"2021-12-13 09:00:00 +09:00\",\"a\"");
    let untimed = "Timestamp,Id\n2021-12-13 09:00:00 +09:00,a\n2021-12-13 01:00:00 +00:00,b\n-,c\n";
    let lines = run_sort_csv(untimed);
    assert_eq!(lines[1], "\"-\",\"c\"");
    assert_eq!(lines[2], "\"2021-12-13 01:00:00 +00:00\",\"b\"");
    assert_eq!(lines[3], "\"2021-12-13 09:00:00 +09:00\",\"a\"");
}

#[test]
fn the_same_instant_in_two_offsets_is_no_duplicate() {
    // the cells differ, so both rows stay, in input order
    let input = "Timestamp,Id\n2021-12-13 09:00:00 +09:00,a\n2021-12-13 00:00:00 +00:00,a\n";
    let lines = run_sort_csv(input);
    assert_eq!(lines.len(), 3);
    assert_eq!(lines[1], "\"2021-12-13 09:00:00 +09:00\",\"a\"");
}

#[test]
fn rows_without_an_evtx_file_column_must_be_equal_to_collapse() {
    let input = "Timestamp,Id\n2021-12-13,a\n2021-12-13,b\n2021-12-13,a\n";
    let lines = run_sort_csv(input);
    assert_eq!(lines.len(), 3);
    assert_eq!(lines[1], "\"2021-12-13\",\"a\"");
    assert_eq!(lines[2], "\"2021-12-13\",\"b\"");
}

#[test]
fn duplicates_across_files_keep_the_copy_of_the_first_file() {
    let first = "Timestamp,Id,EvtxFile\n2021-12-14,x,first.evtx\n";
    let second = "Timestamp,Id,EvtxFile\n2021-12-13,y,second.evtx\n2021-12-14,x,second.evtx\n";
    let lines = run_on_files(&[first, second]);
    assert_eq!(lines.len(), 3);
    assert_eq!(lines[1], "\"2021-12-13\",\"y\",\"second.evtx\"");
    assert_eq!(lines[2], "\"2021-12-14\",\"x\",\"first.evtx\"");
}

#[test]
fn files_with_another_header_are_skipped() {
    let files: Vec<Vec<u8>> = vec![
        b"Timestamp,Id\n2021-12-14,x\n".to_vec(),
        b"Timestamp,Name\n2021-12-13,y\n".to_vec(),
        b"Timestamp,Id\n2021-12-12,z\n".to_vec(),
    ];
    let report = sort_csv(&files);
    assert_eq!(report.skipped, vec![1]);
    let without = sort_csv(&[files[0].clone(), files[2].clone()]);
    assert!(without.skipped.is_empty());
    let bytes = report.result.unwrap();
    assert_eq!(bytes, without.result.unwrap());
    assert_eq!(
        bytes,
        b"\"Timestamp\",\"Id\"\n\"2021-12-12\",\"z\"\n\"2021-12-14\",\"x\"\n".to_vec()
    );
}

#[test]
fn numbers_are_written_without_quotes() {
    let input = "Timestamp,EventID,Details\n2021-12-13,4624,\"a \"\"b\"\", c\"\n";
    let lines = run_sort_csv(input);
    assert_eq!(lines[1], "\"2021-12-13\",4624,\"a \"\"b\"\", c\"");
}

#[test]
fn sorting_the_output_again_changes_nothing() {
    let input = "Timestamp,Id,EvtxFile\nlater,\"two\nlines\",a\n2021-12-13,x,b\nlater,\"two\nlines\",c\n";
    let once = sort_csv(&[input.as_bytes().to_vec()]).result.unwrap();
    let twice = sort_csv(&[once.clone()]).result.unwrap();
    assert_eq!(once, twice);
    assert_eq!(
        String::from_utf8(once).unwrap(),
        "\"Timestamp\",\"Id\",\"EvtxFile\"\n\"2021-12-13\",\"x\",\"b\"\n\"later\",\"two\nlines\",\"a\"\n"
    );
}

#[test]
fn a_header_alone_is_sorted_to_itself() {
    let lines = run_sort_csv("Timestamp,Id\n");
    assert_eq!(lines, vec!["\"Timestamp\",\"Id\"".to_string()]);
}

#[test]
fn no_files_are_an_error() {
    let report = sort_csv(&[]);
    assert_eq!(report.result, Err(SortCsvError::NoInput));
    assert!(report.skipped.is_empty());
}

#[test]
fn files_without_a_timestamp_column_are_an_error() {
    let report = sort_csv(&[b"Time,Id\n2021-12-13,x\n".to_vec()]);
    assert_eq!(report.result, Err(SortCsvError::NoTimestampColumn));
    // an empty file has no columns
    assert_eq!(sort_csv(&[Vec::new()]).result, Err(SortCsvError::NoTimestampColumn));
}

#[test]
fn rows_of_another_length_cannot_be_written() {
    let report = sort_csv(&[b"Timestamp,Id\n2021-12-14,x\n2021-12-13,y,z\n".to_vec()]);
    assert_eq!(
        report.result,
        Err(SortCsvError::Unwritable(UnequalLengths {
            expected: 2,
            found: 3,
            partial: b"\"Timestamp\",\"Id\"\n\"2021-12-13\",\"y\",\"z".to_vec()
        }))
    );
}

#[test]
fn the_first_unreadable_file_ends_the_sort() {
    let good = b"Timestamp,Id\n2021-12-13,x\n".to_vec();
    let other = b"Timestamp,Name\n2021-12-13,x\n".to_vec();
    let bad_row = b"Timestamp,Id\n2021-12-13,x\n2021-12-13,\xff\n".to_vec();
    let bad_header = b"Timestamp,\xff\n".to_vec();
    let report = sort_csv(&[good.clone(), other, bad_row, bad_header.clone()]);
    assert_eq!(report.skipped, vec![1]);
    assert!(matches!(
        report.result,
        Err(SortCsvError::Unreadable(2, CsvFault::Row(_)))
    ));
    let report = sort_csv(&[good, bad_header]);
    assert!(matches!(
        report.result,
        Err(SortCsvError::Unreadable(1, CsvFault::Header(_)))
    ));
}

#[test]
fn files_given_twice_change_nothing() {
    let files: Vec<Vec<u8>> = vec![
        b"Timestamp,Id,EvtxFile\n2021-12-14,x,a\n2021-12-13,y,a\n".to_vec(),
        b"Timestamp,Id\n2021-12-11,skipped\n".to_vec(),
        b"Timestamp,Id,EvtxFile\n2021-12-12,z,b\n2021-12-14,x,b\n".to_vec(),
    ];
    let mut twice = files.clone();
    twice.extend(files.clone());
    let once = sort_csv(&files).result.unwrap();
    assert_eq!(sort_csv(&twice).result.unwrap(), once);
    assert_eq!(
        String::from_utf8(once).unwrap(),
        "\"Timestamp\",\"Id\",\"EvtxFile\"\n\"2021-12-12\",\"z\",\"b\"\n\
\"2021-12-13\",\"y\",\"a\"\n\"2021-12-14\",\"x\",\"a\"\n"
    );
}
