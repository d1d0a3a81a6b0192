use log_pipeline::filter::{contains_sub, filter_file, parse_id, LogRecord, ParseFault};
use log_pipeline::lines::{join_lines, split_into_lines};
use log_pipeline::merge::{aggregate, filter_pipeline, MergeError};
use log_pipeline::order::sort_records;

fn bytes(s: &str) -> Vec<u8> {
    s.as_bytes().to_vec()
}

#[test]
fn parse_id_reads_leading_field() {
    assert_eq!(parse_id(&bytes("123\tfoo")), Ok(123));
    assert_eq!(parse_id(&bytes("0\t")), Ok(0));
    assert_eq!(parse_id(&bytes("007\tx")), Ok(7));
    assert_eq!(parse_id(&bytes("18446744073709551615\tx")), Ok(u64::MAX));
}

#[test]
fn parse_id_reports_each_fault() {
    assert_eq!(parse_id(&bytes("123")), Err(ParseFault::MissingTab));
    assert_eq!(parse_id(&bytes("\tfoo")), Err(ParseFault::EmptyField));
    assert_eq!(parse_id(&bytes("12a\tfoo")), Err(ParseFault::BadDigit));
    assert_eq!(parse_id(&bytes("18446744073709551616\tx")), Err(ParseFault::Overflow));
    assert_eq!(parse_id(&bytes("99999999999999999999\tx")), Err(ParseFault::Overflow));
}

#[test]
fn contains_finds_substrings() {
    assert!(contains_sub(&bytes("2\tbarfoo"), &bytes("foo")));
    assert!(!contains_sub(&bytes("2\tbar"), &bytes("foo")));
    assert!(contains_sub(&bytes("anything"), &bytes("")));
    assert!(!contains_sub(&bytes("ab"), &bytes("abc")));
}

#[test]
fn predicate_keeps_matching_ids_in_order() {
    let file = bytes("1\tfoo\n2\tbar\n3\tfoobar");
    let out = filter_pipeline(&vec![file], &bytes("foo")).unwrap();
    assert_eq!(out, bytes("1\tfoo\n3\tfoobar"));
}

#[test]
fn worker_reports_first_unreadable_matched_line() {
    let file = bytes("1\tfoo\nxx\n2\tbar");
    let err = filter_file(&file, &bytes("")).unwrap_err();
    assert_eq!(err.line, 1);
    assert_eq!(err.fault, ParseFault::MissingTab);
}

#[test]
fn worker_skips_unreadable_unmatched_lines() {
    let file = bytes("1\tfoo\nxx\n2\tfoo");
    let recs = filter_file(&file, &bytes("foo")).unwrap();
    let ids: Vec<u64> = recs.iter().map(|r| r.id).collect();
    assert_eq!(ids, vec![1, 2]);
}

#[test]
fn completion_order_never_changes_the_output() {
    let a = bytes("1\ta\n5\tb");
    let b = bytes("2\tc\n9\td");
    let first = filter_pipeline(&vec![a.clone(), b.clone()], &bytes("")).unwrap();
    let second = filter_pipeline(&vec![b, a], &bytes("")).unwrap();
    assert_eq!(first, second);
    assert_eq!(first, bytes("1\ta\n2\tc\n5\tb\n9\td"));
}

#[test]
fn rerunning_gives_byte_identical_output() {
    let files = vec![bytes("3\tfoo\n1\tfoo"), bytes("2\tfoo")];
    let pat = bytes("foo");
    let once = filter_pipeline(&files, &pat).unwrap();
    let twice = filter_pipeline(&files, &pat).unwrap();
    assert_eq!(once, twice);
    assert_eq!(once, bytes("1\tfoo\n2\tfoo\n3\tfoo"));
}

#[test]
fn merge_surfaces_the_failing_file_and_line() {
    let good = bytes("1\tfoo");
    let bad = bytes("2\tfoo\nbad\tnot-a-number\toops");
    let err = filter_pipeline(&vec![good, bad], &bytes("")).unwrap_err();
    assert_eq!(err, MergeError { file: 1, line: 1, fault: ParseFault::BadDigit });
}

#[test]
fn aggregate_merges_delivered_records() {
    let mut outcomes = vec![
        Ok(vec![
            LogRecord { id: 9, raw: bytes("9\tz") },
            LogRecord { id: 1, raw: bytes("1\ta") },
        ]),
        Ok(vec![LogRecord { id: 4, raw: bytes("4\tm") }]),
    ];
    let out = aggregate(&mut outcomes).unwrap();
    assert_eq!(out, bytes("1\ta\n4\tm\n9\tz"));
}

#[test]
fn sort_is_stable_on_colliding_ids() {
    let recs = vec![
        LogRecord { id: 2, raw: bytes("2\tfirst") },
        LogRecord { id: 1, raw: bytes("1\tx") },
        LogRecord { id: 2, raw: bytes("2\tsecond") },
    ];
    let sorted = sort_records(recs);
    let raws: Vec<Vec<u8>> = sorted.iter().map(|r| r.raw.clone()).collect();
    assert_eq!(raws, vec![bytes("1\tx"), bytes("2\tfirst"), bytes("2\tsecond")]);
}

#[test]
fn lines_survive_join_and_split() {
    let lines = vec![bytes("1\tfoo"), bytes(""), bytes("3\tbar")];
    let joined = join_lines(&lines);
    assert_eq!(joined, bytes("1\tfoo\n\n3\tbar"));
    assert_eq!(split_into_lines(&joined), lines);
}

#[test]
fn split_drops_one_trailing_newline() {
    let data = bytes("1\ta\n2\tb\n");
    let lines = split_into_lines(&data);
    assert_eq!(lines, vec![bytes("1\ta"), bytes("2\tb")]);
    assert_eq!(split_into_lines(&Vec::new()), Vec::<Vec<u8>>::new());
}

#[test]
fn empty_input_gives_empty_output() {
    let out = filter_pipeline(&Vec::new(), &bytes("foo")).unwrap();
    assert_eq!(out, Vec::<u8>::new());
}
