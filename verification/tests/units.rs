use std::cmp::Ordering;
use std::collections::VecDeque;

use file_sort::SortError;
use file_sort::merge::{internal_sort, queue_insert};
use file_sort::order::{
    FieldRule, compare_by_predicate, compare_string_date_slice, compare_string_dates,
    compare_string_slice, line_fits,
};
use file_sort::parse::sorter;
use file_sort::reader::{CollectionState, RunReader, check_collection};

fn bytes(s: &str) -> Vec<u8> {
    s.as_bytes().to_vec()
}

#[test]
fn sorter_line_keyword_gives_whole_line() {
    let key = sorter(&bytes("line")).unwrap();
    assert_eq!(key, vec![FieldRule::WholeLine]);
}

#[test]
fn sorter_parses_slice_and_date_rules() {
    let key = sorter(&bytes("s,0,2;d,2,10")).unwrap();
    assert_eq!(
        key,
        vec![
            FieldRule::LexicographicSlice { start: 0, end: 2 },
            FieldRule::DateSlice { start: 2, end: 12 },
        ]
    );
}

#[test]
fn sorter_accepts_trailing_separator() {
    let key = sorter(&bytes("s,3,4;")).unwrap();
    assert_eq!(key, vec![FieldRule::LexicographicSlice { start: 3, end: 7 }]);
}

#[test]
fn sorter_accepts_leading_zeros() {
    let key = sorter(&bytes("d,00,08")).unwrap();
    assert_eq!(key, vec![FieldRule::DateSlice { start: 0, end: 8 }]);
}

#[test]
fn sorter_rejects_unknown_kind() {
    assert_eq!(sorter(&bytes("x,1,2")), Err(SortError::MalformedSpec));
}

#[test]
fn sorter_rejects_bad_number() {
    assert_eq!(sorter(&bytes("s,a,2")), Err(SortError::MalformedSpec));
}

#[test]
fn sorter_rejects_missing_length() {
    assert_eq!(sorter(&bytes("s,1")), Err(SortError::MalformedSpec));
}

#[test]
fn sorter_rejects_empty_text() {
    assert_eq!(sorter(&bytes("")), Err(SortError::MalformedSpec));
}

#[test]
fn sorter_rejects_extra_field() {
    assert_eq!(sorter(&bytes("s,1,2,3")), Err(SortError::MalformedSpec));
}

#[test]
fn sorter_rejects_line_keyword_with_noise() {
    assert_eq!(sorter(&bytes("line;")), Err(SortError::MalformedSpec));
}

#[test]
fn slice_comparison_orders_by_range_only() {
    let a = bytes("zzabczz");
    let b = bytes("aaabdaa");
    assert_eq!(compare_string_slice(&a, &b, 2, 5), Ordering::Less);
    assert_eq!(compare_string_slice(&a, &b, 2, 4), Ordering::Equal);
    assert_eq!(compare_string_slice(&b, &a, 2, 5), Ordering::Greater);
}

#[test]
fn blank_date_sorts_after_any_value() {
    let blank = bytes("        ");
    let dated = bytes("20240101");
    assert_eq!(compare_string_dates(&blank, &dated), Ordering::Greater);
    assert_eq!(compare_string_dates(&dated, &blank), Ordering::Less);
    assert_eq!(compare_string_dates(&blank, &blank), Ordering::Equal);
}

#[test]
fn non_blank_dates_compare_lexicographically() {
    let older = bytes("20231231");
    let newer = bytes("20240101");
    assert_eq!(compare_string_dates(&older, &newer), Ordering::Less);
    assert_eq!(compare_string_dates(&newer, &newer), Ordering::Equal);
}

#[test]
fn date_slice_uses_blank_rule_on_range() {
    let a = bytes("AA        x");
    let b = bytes("AA20240101x");
    assert_eq!(compare_string_date_slice(&a, &b, 2, 10), Ordering::Greater);
    assert_eq!(compare_string_date_slice(&b, &a, 2, 10), Ordering::Less);
}

#[test]
fn composite_key_first_difference_decides() {
    let key = vec![
        FieldRule::LexicographicSlice { start: 0, end: 2 },
        FieldRule::DateSlice { start: 2, end: 12 },
    ];
    let a = bytes("AA2024-01-01\n");
    let b = bytes("AA2023-12-31\n");
    let c = bytes("AB2023-12-31\n");
    assert_eq!(compare_by_predicate(&a, &b, &key), Ordering::Greater);
    assert_eq!(compare_by_predicate(&b, &a, &key), Ordering::Less);
    assert_eq!(compare_by_predicate(&a, &c, &key), Ordering::Less);
    assert_eq!(compare_by_predicate(&a, &a, &key), Ordering::Equal);
}

#[test]
fn whole_line_rule_compares_whole_lines() {
    let key = vec![FieldRule::WholeLine];
    assert_eq!(compare_by_predicate(&bytes("abc"), &bytes("abd"), &key), Ordering::Less);
    assert_eq!(compare_by_predicate(&bytes("ab"), &bytes("abc"), &key), Ordering::Less);
    assert_eq!(compare_by_predicate(&bytes("abc"), &bytes("abc"), &key), Ordering::Equal);
}

#[test]
fn empty_key_compares_equal() {
    let key: Vec<FieldRule> = Vec::new();
    assert_eq!(compare_by_predicate(&bytes("xyz"), &bytes("abc"), &key), Ordering::Equal);
}

#[test]
fn line_fits_checks_rule_ranges() {
    let key = vec![FieldRule::LexicographicSlice { start: 0, end: 4 }];
    assert!(line_fits(&bytes("abcd"), &key));
    assert!(!line_fits(&bytes("abc"), &key));
}

#[test]
fn internal_sort_inserts_before_first_greater() {
    let key = vec![FieldRule::WholeLine];
    let mut queue: VecDeque<(usize, Vec<u8>)> = VecDeque::new();
    queue.push_back((0, bytes("b")));
    queue.push_back((1, bytes("d")));
    internal_sort(&mut queue, &bytes("c"), &key, 2);
    let entries: Vec<(usize, Vec<u8>)> = queue.into_iter().collect();
    assert_eq!(entries, vec![(0, bytes("b")), (2, bytes("c")), (1, bytes("d"))]);
}

#[test]
fn internal_sort_leaves_queue_unchanged_when_nothing_greater() {
    let key = vec![FieldRule::WholeLine];
    let mut queue: VecDeque<(usize, Vec<u8>)> = VecDeque::new();
    queue.push_back((0, bytes("a")));
    internal_sort(&mut queue, &bytes("z"), &key, 1);
    assert_eq!(queue.len(), 1);
}

#[test]
fn queue_insert_appends_ties_after_equal_entries() {
    let key = vec![FieldRule::WholeLine];
    let mut queue: VecDeque<(usize, Vec<u8>)> = VecDeque::new();
    queue_insert(&mut queue, &bytes("m"), &key, 0);
    queue_insert(&mut queue, &bytes("m"), &key, 1);
    queue_insert(&mut queue, &bytes("a"), &key, 2);
    let entries: Vec<(usize, Vec<u8>)> = queue.into_iter().collect();
    assert_eq!(entries, vec![(2, bytes("a")), (0, bytes("m")), (1, bytes("m"))]);
}

#[test]
fn reader_reports_refill_then_serves_window() {
    let mut reader = RunReader::new();
    assert_eq!(check_collection(&reader), CollectionState::NeedsRefill);
    assert_eq!(reader.offset(), 0);
    reader.refill(vec![bytes("one\n"), bytes("two\n")]);
    assert_eq!(reader.offset(), 8);
    assert_eq!(check_collection(&reader), CollectionState::Ready);
    assert_eq!(reader.take_next(), bytes("one\n"));
    assert_eq!(reader.take_next(), bytes("two\n"));
    assert_eq!(check_collection(&reader), CollectionState::NeedsRefill);
    reader.refill(Vec::new());
    assert_eq!(check_collection(&reader), CollectionState::Drained);
    assert_eq!(reader.offset(), 8);
}
