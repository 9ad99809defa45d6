use csv::StringRecord;
use timeline_csv::inputs::{collect_input_files, input_order, Entry};
use timeline_csv::output::{may_write, write_output, UnequalLengths};
use timeline_csv::records::{fields, read_csv, take_rows, CsvFault};

fn row(cells: &[&str]) -> StringRecord {
    StringRecord::from(cells.to_vec())
}

fn strings(cells: &[&str]) -> Vec<String> {
    cells.iter().map(|cell| cell.to_string()).collect()
}

fn entry(name: &str, is_file: bool) -> Entry<String> {
    Entry { path: format!("dir/{name}"), name: name.as_bytes().to_vec(), is_file }
}

#[test]
fn reads_quoted_and_ragged_rows() {
    let bytes = b"a,\"b, c\"\n1,\"x \"\"y\"\"\nz\"\r\n\n2\n";
    let (header, rows) = read_csv(bytes).unwrap();
    assert_eq!(header, strings(&["a", "b, c"]));
    assert_eq!(rows, vec![row(&["1", "x \"y\"\nz"]), row(&["2"])]);
}

#[test]
fn an_empty_file_has_no_columns_and_no_rows() {
    let (header, rows) = read_csv(b"").unwrap();
    assert!(header.is_empty());
    assert!(rows.is_empty());
}

#[test]
fn faults_tell_header_and_rows_apart() {
    assert!(matches!(read_csv(b"\xff\na\n"), Err(CsvFault::Header(_))));
    let fault = read_csv(b"a\nb\n\xff\n").unwrap_err();
    assert_eq!(
        fault,
        CsvFault::Row(
            "CSV parse error: record 2 (line 3, field: 0, byte: 4): invalid utf-8: \
             invalid UTF-8 in field 0 near byte index 0"
                .to_string()
        )
    );
}

#[test]
fn a_fault_in_the_first_row_names_its_place() {
    assert_eq!(
        read_csv(b"a\n\xff\n").unwrap_err(),
        CsvFault::Row(
            "CSV parse error: record 1 (line 2, field: 0, byte: 2): invalid utf-8: \
             invalid UTF-8 in field 0 near byte index 0"
                .to_string()
        )
    );
    assert_eq!(
        read_csv(b"\xff\na\n").unwrap_err(),
        CsvFault::Header(
            "CSV parse error: record 0 (line 1, field: 0, byte: 0): invalid utf-8: \
             invalid UTF-8 in field 0 near byte index 0"
                .to_string()
        )
    );
}

#[test]
fn an_existing_output_is_overwritten_only_on_request() {
    assert!(may_write(false, false));
    assert!(may_write(false, true));
    assert!(!may_write(true, false));
    assert!(may_write(true, true));
}

#[test]
fn the_first_error_among_records_counts() {
    let good = take_rows(vec![Ok(row(&["a"])), Ok(row(&["b"]))]);
    assert_eq!(good, Ok(vec![row(&["a"]), row(&["b"])]));
    let bad = take_rows(vec![
        Ok(row(&["a"])),
        Err("first".to_string()),
        Ok(row(&["b"])),
        Err("second".to_string()),
    ]);
    assert_eq!(bad, Err("first".to_string()));
}

#[test]
fn fields_are_the_cells_of_a_record() {
    assert_eq!(fields(&row(&["a", "", "c"])), vec!["a", "", "c"]);
    assert_eq!(fields(&StringRecord::new()), Vec::<&str>::new());
}

#[test]
fn everything_but_numbers_is_quoted() {
    let rows = vec![row(&["1", "-2.5", "1e3", "", "a\"b", "1,2"])];
    let refs: Vec<&StringRecord> = rows.iter().collect();
    let header = strings(&["a", "b", "c", "d", "e", "f"]);
    let bytes = write_output(&header, &refs).unwrap();
    assert_eq!(
        String::from_utf8(bytes).unwrap(),
        "\"a\",\"b\",\"c\",\"d\",\"e\",\"f\"\n1,-2.5,1e3,\"\",\"a\"\"b\",\"1,2\"\n"
    );
}

#[test]
fn reading_gives_back_what_was_written() {
    let rows = vec![
        row(&["1", "\u{feff}x"]),
        row(&["", "\r\n"]),
        row(&["\"", "nan"]),
        row(&["#", "\u{1f600}, \"quoted\""]),
    ];
    let refs: Vec<&StringRecord> = rows.iter().collect();
    let header = strings(&["\u{feff}Timestamp", "other"]);
    let bytes = write_output(&header, &refs).unwrap();
    assert_eq!(read_csv(&bytes), Ok((header, rows)));
    // a long field does not fit the writer's buffer
    let long = "\"".repeat(100_000);
    let rows = vec![row(&[&long]), row(&[""])];
    let refs: Vec<&StringRecord> = rows.iter().collect();
    let bytes = write_output(&strings(&["a"]), &refs).unwrap();
    assert_eq!(read_csv(&bytes), Ok((strings(&["a"]), rows)));
}

#[test]
fn a_header_without_columns_is_written_as_an_empty_field() {
    assert_eq!(write_output(&[], &[]), Ok(b"\"\"\n".to_vec()));
}

#[test]
fn the_first_row_of_another_length_is_reported() {
    let rows = vec![row(&["1", "2"]), row(&["3"]), row(&["4", "5", "6"])];
    let refs: Vec<&StringRecord> = rows.iter().collect();
    assert_eq!(
        write_output(&strings(&["a", "b"]), &refs),
        Err(UnequalLengths {
            expected: 2,
            found: 1,
            partial: b"\"a\",\"b\"\n1,2\n3".to_vec()
        })
    );
    let rows = vec![row(&["x", "y"]), row(&["x", "y", "z\"z"]), row(&["x", "y"])];
    let refs: Vec<&StringRecord> = rows.iter().collect();
    assert_eq!(
        write_output(&strings(&["a", "b"]), &refs),
        Err(UnequalLengths {
            expected: 2,
            found: 3,
            partial: b"\"a\",\"b\"\n\"x\",\"y\"\n\"x\",\"y\",\"z\"\"z".to_vec()
        })
    );
    let rows = vec![StringRecord::new()];
    let refs: Vec<&StringRecord> = rows.iter().collect();
    assert_eq!(
        write_output(&strings(&["a"]), &refs),
        Err(UnequalLengths { expected: 1, found: 0, partial: b"\"a\"\n".to_vec() })
    );
}

#[test]
fn csv_files_of_a_directory_are_taken_by_name() {
    let entries = vec![
        entry("b.csv", true),
        entry("a.CSV", true),
        entry("notes.txt", true),
        entry("dir.csv", false),
        entry(".csv", true),
        entry("a.csv.bak", true),
        entry("B.Csv", true),
        entry("csv", true),
        entry("..csv", true),
    ];
    assert_eq!(input_order(&entries), vec![8, 6, 1, 0]);
    let files = collect_input_files(&None, &entries);
    assert_eq!(files, vec!["dir/..csv", "dir/B.Csv", "dir/a.CSV", "dir/b.csv"]);
}

#[test]
fn names_are_chosen_as_paths_choose_extensions() {
    for name in ["a.csv", ".csv", "..csv", "a.CsV", "a.csvx", "acsv", "a.b.csv", ".a.csv", "csv", "a."] {
        let expected = std::path::Path::new(name)
            .extension()
            .is_some_and(|ext| ext.eq_ignore_ascii_case("csv"));
        assert_eq!(input_order(&[entry(name, true)]).len() == 1, expected, "{name}");
    }
}

#[test]
fn the_listing_order_does_not_matter() {
    let forth = vec![entry("a.csv", true), entry("b.csv", true), entry("c.csv", true)];
    let back = vec![entry("c.csv", true), entry("b.csv", true), entry("a.csv", true)];
    assert_eq!(collect_input_files(&None, &forth), collect_input_files(&None, &back));
}

#[test]
fn a_single_file_is_taken_as_it_is() {
    let file = Some("some/file.txt".to_string());
    let entries = vec![entry("a.csv", true)];
    assert_eq!(collect_input_files(&file, &entries), vec!["some/file.txt"]);
    let nothing: Vec<Entry<String>> = Vec::new();
    assert!(collect_input_files(&None, &nothing).is_empty());
}

#[test]
fn a_name_may_be_listed_twice() {
    let forth = vec![entry("b.csv", true), entry("a.csv", true), entry("b.csv", true)];
    let back = vec![entry("b.csv", true), entry("b.csv", true), entry("a.csv", true)];
    let files = collect_input_files(&None, &forth);
    assert_eq!(files, vec!["dir/a.csv", "dir/b.csv", "dir/b.csv"]);
    assert_eq!(collect_input_files(&None, &back), files);
}

/// Digits, with at most one dot.
fn is_decimal(text: &str) -> bool {
    text.chars().all(|c| c.is_ascii_digit() || c == '.')
        && text.matches('.').count() <= 1
        && text.chars().any(|c| c.is_ascii_digit())
}

fn unsigned(text: &str) -> &str {
    text.strip_prefix(['+', '-']).unwrap_or(text)
}

fn is_number(field: &str) -> bool {
    let text = unsigned(field).to_ascii_lowercase();
    let scientific = text.split_once('e').is_some_and(|(decimal, exponent)| {
        let digits = unsigned(exponent);
        is_decimal(decimal) && !digits.is_empty() && digits.chars().all(|c| c.is_ascii_digit())
    });
    is_decimal(&text) || scientific || ["inf", "infinity", "nan"].contains(&text.as_str())
}

fn is_bare(field: &str) -> bool {
    let rows = vec![row(&[field])];
    let refs: Vec<&StringRecord> = rows.iter().collect();
    let bytes = write_output(&strings(&["column"]), &refs).unwrap();
    !bytes["\"column\"\n".len()..].starts_with(b"\"")
}

#[test]
fn exactly_the_numbers_are_bare() {
    for field in [
        "0", "00", "+7", "-7", "1.", ".5", "-.5e-3", "1E9", "1e400", "inf", "-INF", "Infinity",
        "+NaN", "340282366920938463463374607431768211456",
    ] {
        assert!(is_bare(field), "{field}");
    }
    for field in [
        "", "+", "-", ".", "e5", ".e5", "1e", "1e+", "1.2.3", "--1", " 1", "1 ", "1_000", "0x10",
        "1,5", "infinit", "\u{0661}", "\u{0130}nf", "1f", "nan(0)",
    ] {
        assert!(!is_bare(field), "{field}");
    }
    // every text of up to four of these characters
    let mut texts = vec![String::new()];
    for _ in 0..4 {
        for text in texts.clone() {
            for c in ['+', '-', '.', 'e', 'E', '1', 'i', 'N', 'f', 'a'] {
                texts.push(format!("{text}{c}"));
            }
        }
        texts.sort();
        texts.dedup();
    }
    for text in texts {
        assert_eq!(is_bare(&text), is_number(&text), "{text}");
    }
}
