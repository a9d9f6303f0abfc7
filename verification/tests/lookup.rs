use source_mappings::{parse, to_source, Mappings};

fn sample() -> Mappings {
    vec![
        vec![Some((4, 0, 8, 19)), Some((11, 0, 8, 26)), None, Some((20, 0, 9, 2))],
        vec![None],
        vec![Some((7, 0, 0, 9))],
    ]
}

#[test]
fn to_source_returns_first_entry_at_or_after_the_column() {
    let table = sample();
    assert_eq!(to_source(&table, 1, 0), Some((9, 19)));
    assert_eq!(to_source(&table, 1, 4), Some((9, 19)));
    assert_eq!(to_source(&table, 1, 5), Some((9, 26)));
    assert_eq!(to_source(&table, 1, 11), Some((9, 26)));
    assert_eq!(to_source(&table, 1, 12), Some((10, 2)));
    assert_eq!(to_source(&table, 1, 20), Some((10, 2)));
    assert_eq!(to_source(&table, 3, 7), Some((1, 9)));
}

#[test]
fn to_source_column_beyond_every_entry_is_absent() {
    let table = sample();
    assert_eq!(to_source(&table, 1, 21), None);
    assert_eq!(to_source(&table, 3, 8), None);
    assert_eq!(to_source(&table, 1, usize::MAX), None);
}

#[test]
fn to_source_line_without_entries_is_absent() {
    let table = sample();
    assert_eq!(to_source(&table, 2, 0), None);
    let no_slots: Mappings = vec![vec![]];
    assert_eq!(to_source(&no_slots, 1, 0), None);
}

#[test]
fn to_source_line_out_of_range_is_absent() {
    let table = sample();
    assert_eq!(to_source(&table, 0, 0), None);
    assert_eq!(to_source(&table, 4, 0), None);
    assert_eq!(to_source(&table, usize::MAX, 0), None);
    let empty: Mappings = vec![];
    assert_eq!(to_source(&empty, 1, 0), None);
}

#[test]
fn to_source_ties_go_to_the_first_in_stored_order() {
    let table: Mappings = vec![vec![Some((5, 0, 1, 1)), Some((5, 0, 2, 2)), Some((5, 0, 3, 3))]];
    assert_eq!(to_source(&table, 1, 5), Some((2, 1)));
}

#[test]
fn to_source_scans_in_stored_order_when_columns_are_not_sorted() {
    let table: Mappings = vec![vec![Some((9, 0, 1, 1)), Some((3, 0, 2, 2)), Some((12, 0, 3, 3))]];
    assert_eq!(to_source(&table, 1, 2), Some((2, 1)));
    assert_eq!(to_source(&table, 1, 10), Some((4, 3)));
}

#[test]
fn to_source_results_are_monotone_in_the_column() {
    let table = sample();
    let generated = [4usize, 11, 20];
    let sources = [(9usize, 19usize), (9, 26), (10, 2)];
    let mut last = 0;
    for column in 0..=20 {
        let found = to_source(&table, 1, column).unwrap();
        let at = sources.iter().position(|s| *s == found).unwrap();
        assert!(generated[at] >= column);
        assert!(at >= last);
        last = at;
    }
}

#[test]
fn to_source_negative_generated_column_reaches_no_column() {
    let table: Mappings = vec![vec![Some((-1, 0, 1, 1)), Some((0, 0, 2, 2))]];
    assert_eq!(to_source(&table, 1, 0), Some((3, 2)));
    let only_negative: Mappings = vec![vec![Some((-1, 0, 1, 1))]];
    assert_eq!(to_source(&only_negative, 1, 0), None);
}

#[test]
fn to_source_reports_source_line_from_one() {
    let table: Mappings = vec![vec![
        Some((0, 0, 0, 0)),
        Some((1, 0, -1, 0)),
        Some((2, 0, i32::MAX, i32::MAX)),
    ]];
    assert_eq!(to_source(&table, 1, 0), Some((1, 0)));
    assert_eq!(to_source(&table, 1, 1), Some((0, 0)));
    assert_eq!(to_source(&table, 1, 2), Some((2147483648, 2147483647)));
}

#[test]
fn to_source_negative_source_numbers_wrap_around() {
    let table: Mappings = vec![vec![Some((0, 0, -3, -1)), Some((1, 0, i32::MIN, i32::MIN))]];
    assert_eq!(to_source(&table, 1, 0), Some((usize::MAX - 1, usize::MAX)));
    assert_eq!(
        to_source(&table, 1, 1),
        Some((usize::MAX - 2147483646, usize::MAX - 2147483647))
    );
}

#[test]
fn to_source_on_empty_input_is_always_absent() {
    let table = parse("");
    for line in 0..4 {
        for column in 0..4 {
            assert_eq!(to_source(&table, line, column), None);
        }
    }
    assert_eq!(to_source(&table, 1, usize::MAX), None);
    assert_eq!(to_source(&table, usize::MAX, 0), None);
}

#[test]
fn to_source_after_parse() {
    let table = parse("AAAA,IAAE;;EACA");
    assert_eq!(to_source(&table, 1, 0), Some((1, 0)));
    assert_eq!(to_source(&table, 1, 1), Some((1, 2)));
    assert_eq!(to_source(&table, 1, 4), Some((1, 2)));
    assert_eq!(to_source(&table, 1, 5), None);
    assert_eq!(to_source(&table, 2, 0), None);
    assert_eq!(to_source(&table, 3, 0), Some((2, 2)));
    assert_eq!(to_source(&table, 3, 2), Some((2, 2)));
    assert_eq!(to_source(&table, 3, 3), None);
}
