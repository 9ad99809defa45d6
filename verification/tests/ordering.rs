use csv::StringRecord;
use timeline_csv::dedup::{sort_and_dedup, surviving_rows};
use timeline_csv::merge::Merged;
use timeline_csv::order::{bytes_before, stable_order, SortKey};
use timeline_csv::sorting::{find_column, sort_by_times, sort_rows};

fn row(cells: &[&str]) -> StringRecord {
    StringRecord::from(cells.to_vec())
}

fn strings(cells: &[&str]) -> Vec<String> {
    cells.iter().map(|cell| cell.to_string()).collect()
}

#[test]
fn byte_strings_are_compared_like_slices() {
    let samples: [&[u8]; 7] = [b"", b"a", b"ab", b"b", b"a\xff", b"B", b"\x00"];
    for a in samples {
        for b in samples {
            assert_eq!(bytes_before(a, b), a < b);
        }
    }
}

#[test]
fn optional_texts_are_compared_like_options() {
    let samples = [None, Some(""), Some("a"), Some("ab"), Some("\u{e9}"), Some("\u{10000}"), Some("\u{ffff}")];
    for a in samples {
        for b in samples {
            assert_eq!(a.is_before(&b), a < b);
        }
    }
}

#[test]
fn the_sort_is_stable() {
    let keys: Vec<i128> = vec![3, 1, 2, 1, 3, 1, 2];
    assert_eq!(stable_order(&keys), vec![1, 3, 5, 2, 6, 0, 4]);
    let none: Vec<i128> = vec![];
    assert_eq!(stable_order(&none), Vec::<usize>::new());
}

#[test]
fn the_sort_agrees_with_the_standard_one() {
    let keys: Vec<i128> = (0..1000).map(|i: i128| (i * 7919) % 101).collect();
    let mut expected: Vec<usize> = (0..keys.len()).collect();
    expected.sort_by_key(|&i| keys[i]);
    assert_eq!(stable_order(&keys), expected);
}

#[test]
fn only_the_first_copy_survives() {
    let rows = vec![
        row(&["5", "x", "one"]),
        row(&["3", "y", "one"]),
        row(&["5", "x", "two"]),
        row(&["5", "z", "two"]),
        row(&["3", "y", "one"]),
    ];
    let keys: Vec<i128> = vec![5, 3, 5, 5, 3];
    assert_eq!(surviving_rows(&rows, Some(2), &keys), vec![1, 0, 3]);
    assert_eq!(surviving_rows(&rows, None, &keys), vec![1, 0, 2, 3]);
    let sorted = sort_and_dedup(&rows, Some(2), &keys);
    assert_eq!(sorted, vec![&rows[1], &rows[0], &rows[3]]);
}

#[test]
fn equal_rows_under_different_keys_both_survive() {
    let rows = vec![row(&["a"]), row(&["a"])];
    let keys: Vec<i128> = vec![2, 1];
    assert_eq!(surviving_rows(&rows, None, &keys), vec![1, 0]);
}

#[test]
fn a_row_too_short_for_the_ignored_column_is_compared_whole() {
    let rows = vec![row(&["a"]), row(&["a", "b"]), row(&["a", "c"]), row(&["a", "c", "d"])];
    let keys: Vec<i128> = vec![0, 0, 0, 0];
    assert_eq!(surviving_rows(&rows, Some(1), &keys), vec![0, 3]);
}

#[test]
fn given_times_decide_the_order() {
    let rows = vec![row(&["b"]), row(&["a"]), row(&["c"])];
    let by_time = sort_by_times(&rows, 0, None, Some(vec![2, 3, 1]));
    assert_eq!(by_time, vec![&rows[2], &rows[0], &rows[1]]);
    let by_text = sort_by_times(&rows, 0, None, None);
    assert_eq!(by_text, vec![&rows[1], &rows[0], &rows[2]]);
}

#[test]
fn rows_without_a_timestamp_cell_come_first() {
    let rows = vec![row(&["x", "2021-12-13"]), row(&["y"])];
    let header = strings(&["Id", "Timestamp"]);
    assert_eq!(sort_rows(&header, &rows), Some(vec![&rows[1], &rows[0]]));
    assert_eq!(sort_rows(&strings(&["Id", "Time"]), &rows), None);
}

#[test]
fn the_first_column_of_a_name_is_found() {
    let header = strings(&["a", "Timestamp", "b", "Timestamp"]);
    assert_eq!(find_column(&header, "Timestamp"), Some(1));
    assert_eq!(find_column(&header, "timestamp"), None);
    assert_eq!(find_column(&header, "b"), Some(2));
}

#[test]
fn the_first_file_sets_the_header() {
    let mut merged = Merged::new();
    assert!(merged.header.is_none());
    assert!(merged.add_file(strings(&["a", "b"]), vec![row(&["1", "2"])]));
    assert!(!merged.add_file(strings(&["a"]), vec![row(&["3"])]));
    assert!(!merged.add_file(strings(&["b", "a"]), vec![row(&["4", "5"])]));
    assert!(merged.add_file(strings(&["a", "b"]), vec![row(&["6", "7"])]));
    assert_eq!(merged.header, Some(strings(&["a", "b"])));
    assert_eq!(merged.rows, vec![row(&["1", "2"]), row(&["6", "7"])]);
}

#[test]
fn the_ignored_column_moves_no_rows() {
    let keys: Vec<i128> = vec![2, 1, 2, 1];
    let rows = vec![row(&["a", "x"]), row(&["b", "x"]), row(&["a", "y"]), row(&["c", "z"])];
    let others = vec![row(&["a", "q"]), row(&["b", "r"]), row(&["a", "q"]), row(&["c", "q"])];
    assert_eq!(surviving_rows(&rows, Some(1), &keys), vec![1, 3, 0]);
    assert_eq!(surviving_rows(&others, Some(1), &keys), vec![1, 3, 0]);
}

#[test]
fn a_second_copy_of_the_rows_adds_nothing() {
    let rows = vec![row(&["a", "x"]), row(&["b", "x"]), row(&["a", "y"])];
    let keys: Vec<i128> = vec![2, 1, 2];
    let mut twice = rows.clone();
    twice.extend(rows.clone());
    let keys_twice: Vec<i128> = vec![2, 1, 2, 2, 1, 2];
    for ignored in [None, Some(0), Some(1), Some(9)] {
        assert_eq!(
            surviving_rows(&twice, ignored, &keys_twice),
            surviving_rows(&rows, ignored, &keys)
        );
    }
    assert_eq!(surviving_rows(&twice, Some(1), &keys_twice), vec![1, 0]);
}

#[test]
fn only_the_relative_order_of_keys_counts() {
    let rows = vec![row(&["a"]), row(&["b"]), row(&["a"]), row(&["a"])];
    let keys: Vec<i128> = vec![5, -3, 5, 0];
    let cubes: Vec<i128> = keys.iter().map(|key| key * key * key).collect();
    let texts = vec![Some("z"), None, Some("z"), Some("m")];
    let expected = vec![1, 3, 0];
    assert_eq!(surviving_rows(&rows, None, &keys), expected);
    assert_eq!(surviving_rows(&rows, None, &cubes), expected);
    assert_eq!(surviving_rows(&rows, None, &texts), expected);
}
