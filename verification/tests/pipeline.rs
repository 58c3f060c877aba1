use std::cmp::Ordering;

use file_sort::SortError;
use file_sort::external_sort;
use file_sort::merge::merge_runs;
use file_sort::order::{FieldRule, compare_by_predicate};
use file_sort::parse::sorter;
use file_sort::run_sort::sort_run;
use file_sort::split::{RunBuilder, split_into_runs};

fn bytes(s: &str) -> Vec<u8> {
    s.as_bytes().to_vec()
}

#[test]
fn split_partitions_the_source_exactly() {
    let lines = vec![bytes("aaa\n"), bytes("bbb\n"), bytes("ccc\n"), bytes("d\n")];
    let runs = split_into_runs(&lines, 8);
    let rejoined: Vec<Vec<u8>> = runs.iter().flatten().cloned().collect();
    assert_eq!(rejoined, lines);
    assert!(runs.iter().all(|r| !r.is_empty()));
    assert_eq!(runs.len(), 2);
    assert_eq!(runs[0].len(), 2);
    assert_eq!(runs[1].len(), 2);
}

#[test]
fn split_of_empty_input_yields_no_runs() {
    let lines: Vec<Vec<u8>> = Vec::new();
    let runs = split_into_runs(&lines, 1024);
    assert_eq!(runs.len(), 0);
}

#[test]
fn run_builder_cuts_at_the_byte_bound() {
    let mut builder = RunBuilder::new(6);
    assert!(builder.push_line(bytes("abc\n")).is_none());
    let run = builder.push_line(bytes("de\n")).expect("run should be cut");
    assert_eq!(run, vec![bytes("abc\n"), bytes("de\n")]);
    assert!(builder.is_empty());
    assert!(builder.push_line(bytes("x\n")).is_none());
    let tail = builder.finish();
    assert_eq!(tail, vec![bytes("x\n")]);
    assert!(builder.is_empty());
}

#[test]
fn sort_run_orders_lines_under_the_key() {
    let key = vec![FieldRule::WholeLine];
    let mut run = vec![bytes("pear\n"), bytes("apple\n"), bytes("melon\n")];
    sort_run(&mut run, &key).unwrap();
    assert_eq!(run, vec![bytes("apple\n"), bytes("melon\n"), bytes("pear\n")]);
}

#[test]
fn sort_run_is_stable_for_equal_keys() {
    let key = vec![FieldRule::LexicographicSlice { start: 0, end: 1 }];
    let mut run = vec![bytes("b1\n"), bytes("a2\n"), bytes("a1\n"), bytes("b2\n")];
    sort_run(&mut run, &key).unwrap();
    assert_eq!(run, vec![bytes("a2\n"), bytes("a1\n"), bytes("b1\n"), bytes("b2\n")]);
}

#[test]
fn resorting_a_sorted_run_is_byte_identical() {
    let key = vec![FieldRule::LexicographicSlice { start: 0, end: 2 }];
    let mut run = vec![bytes("ccx\n"), bytes("aay\n"), bytes("bbz\n")];
    sort_run(&mut run, &key).unwrap();
    let first = run.clone();
    sort_run(&mut run, &key).unwrap();
    assert_eq!(run, first);
}

#[test]
fn sort_run_reports_a_rule_out_of_bounds() {
    let key = vec![FieldRule::LexicographicSlice { start: 0, end: 8 }];
    let mut run = vec![bytes("longline12\n"), bytes("short\n")];
    let before = run.clone();
    assert_eq!(sort_run(&mut run, &key), Err(SortError::FieldOutOfBounds));
    assert_eq!(run, before);
}

#[test]
fn merge_emits_the_global_minimum_across_runs() {
    let key = vec![FieldRule::WholeLine];
    let runs = vec![
        vec![bytes("a\n"), bytes("d\n"), bytes("f\n")],
        vec![bytes("b\n"), bytes("c\n")],
        vec![bytes("e\n")],
    ];
    let out = merge_runs(&runs, &key);
    assert_eq!(
        out,
        vec![bytes("a\n"), bytes("b\n"), bytes("c\n"), bytes("d\n"), bytes("e\n"), bytes("f\n")]
    );
}

#[test]
fn merge_of_no_runs_is_empty() {
    let key = vec![FieldRule::WholeLine];
    let runs: Vec<Vec<Vec<u8>>> = Vec::new();
    let out = merge_runs(&runs, &key);
    assert!(out.is_empty());
}

#[test]
fn two_line_date_scenario_orders_by_date() {
    let key = sorter(&bytes("s,0,2;d,2,10")).unwrap();
    let lines = vec![bytes("AA2024-01-01\n"), bytes("AA2023-12-31\n")];
    let out = external_sort(&lines, 1024, &key).unwrap();
    assert_eq!(out, vec![bytes("AA2023-12-31\n"), bytes("AA2024-01-01\n")]);
}

#[test]
fn blank_date_lines_sort_last() {
    let key = sorter(&bytes("d,0,8")).unwrap();
    let lines = vec![bytes("        x\n"), bytes("20240101a\n"), bytes("20231231b\n")];
    let out = external_sort(&lines, 1024, &key).unwrap();
    assert_eq!(
        out,
        vec![bytes("20231231b\n"), bytes("20240101a\n"), bytes("        x\n")]
    );
}

#[test]
fn empty_source_sorts_to_empty_output() {
    let key = vec![FieldRule::WholeLine];
    let lines: Vec<Vec<u8>> = Vec::new();
    let out = external_sort(&lines, 1024, &key).unwrap();
    assert!(out.is_empty());
}

#[test]
fn external_sort_rejects_short_lines() {
    let key = vec![FieldRule::DateSlice { start: 0, end: 8 }];
    let lines = vec![bytes("2024\n")];
    assert_eq!(external_sort(&lines, 1024, &key), Err(SortError::FieldOutOfBounds));
}

#[test]
fn three_thousand_lines_across_three_runs_merge_fully_sorted() {
    let key = vec![FieldRule::WholeLine];
    let mut lines: Vec<Vec<u8>> = Vec::new();
    for i in 0..3000u32 {
        let v = (3000 - 1 - i) * 7 % 3000;
        lines.push(bytes(&format!("{:04}\n", v)));
    }
    // Each line is 5 bytes; a 5000-byte bound forces 3 runs of 1000 lines.
    let runs = split_into_runs(&lines, 5000);
    assert_eq!(runs.len(), 3);
    let out = external_sort(&lines, 5000, &key).unwrap();
    assert_eq!(out.len(), 3000);
    for k in 1..out.len() {
        assert!(compare_by_predicate(&out[k - 1], &out[k], &key) != Ordering::Greater);
    }
    let mut expected = lines.clone();
    expected.sort();
    assert_eq!(out, expected);
}
