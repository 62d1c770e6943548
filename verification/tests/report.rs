use cargo_aspect::error::WeaveError;
use cargo_aspect::position::Pos;
use cargo_aspect::record::Found;
use cargo_aspect::report::{found_from_header, parse_aop_outputs, parse_found};

fn at(line: usize, col: usize) -> Pos {
    Pos { line, col }
}

fn args_of(f: &Found) -> Vec<(String, String)> {
    f.args().clone()
}

fn pair(k: &str, v: &str) -> (String, String) {
    (k.to_string(), v.to_string())
}

const RECORD: &str = "Found {\n    span: src/main.rs:3:5: 3:17 (#0),\n    src: \"println!(\\\"hi\\\")\",\n    args: {\n        \"ARG1\": \"\\\"hi\\\"\",\n        \"ARG10\": \"x + 1\",\n    },\n}\n";

#[test]
fn parse_found_reads_the_header() {
    let f = parse_found(RECORD).unwrap();
    assert_eq!(f.file(), "src/main.rs");
    assert_eq!(f.start(), at(3, 5));
    assert_eq!(f.end(), at(3, 17));
}

#[test]
fn parse_found_reads_the_matched_text_without_backslashes() {
    let f = parse_found(RECORD).unwrap();
    assert_eq!(f.src(), "println!(\"hi\")");
}

#[test]
fn parse_found_reads_the_captures_behind_the_args_line() {
    let f = parse_found(RECORD).unwrap();
    assert_eq!(args_of(&f), vec![pair("ARG10", "x + 1"), pair("ARG1", "\"hi")]);
}

#[test]
fn parse_found_without_src_and_args() {
    let f = parse_found("Found { a.rs:1:2: 3:4 }").unwrap();
    assert_eq!(f.file(), "a.rs");
    assert_eq!(f.start(), at(1, 2));
    assert_eq!(f.end(), at(3, 4));
    assert_eq!(f.src(), "");
    assert!(f.args().is_empty());
}

#[test]
fn parse_found_takes_the_first_header() {
    let f = parse_found("x.rs:1:1: 1:2\ny.rs:5:5: 5:6\n").unwrap();
    assert_eq!(f.file(), "x.rs");
    assert_eq!(f.end(), at(1, 2));
}

#[test]
fn parse_found_takes_the_path_up_to_white_space() {
    let f = parse_found("at  dir/sub/lib.rs.rs:10:20:   \t 11:1").unwrap();
    assert_eq!(f.file(), "dir/sub/lib.rs.rs");
    assert_eq!(f.start(), at(10, 20));
    assert_eq!(f.end(), at(11, 1));
}

#[test]
fn parse_found_takes_the_first_src_line_only() {
    let f = parse_found("a.rs:1:1: 1:1\nsrc: one,\nsrc: two,\n").unwrap();
    assert_eq!(f.src(), "one");
}

#[test]
fn parse_found_trims_quotes_spaces_and_commas_of_a_value() {
    let f = parse_found("a.rs:1:1: 1:1\n  src:  \", \"a, \\\\b\" ,\",\n").unwrap();
    assert_eq!(f.src(), "a, b");
}

#[test]
fn parse_found_keeps_commas_of_a_key() {
    let f = parse_found("a.rs:1:1: 1:1\nargs:\n \" ,k, \" : v\n").unwrap();
    assert_eq!(args_of(&f), vec![pair(",k,", "v")]);
}

#[test]
fn parse_found_ignores_lines_before_the_args_line() {
    let f = parse_found("a.rs:1:1: 1:1\nbefore: x\nargs: {\nafter: y\n").unwrap();
    assert_eq!(args_of(&f), vec![pair("after", "y")]);
}

#[test]
fn parse_found_skips_lines_without_colon_and_lines_with_the_args_marker() {
    let f = parse_found("a.rs:1:1: 1:1\nargs: {\nplain\nargs: again\nk: v\n}\n").unwrap();
    assert_eq!(args_of(&f), vec![pair("k", "v")]);
}

#[test]
fn parse_found_lets_a_later_capture_override_an_earlier_one() {
    let f = parse_found("a.rs:1:1: 1:1\nargs:\nk: one\nk: two\n").unwrap();
    assert_eq!(args_of(&f), vec![pair("k", "two")]);
}

#[test]
fn parse_found_splits_a_value_at_the_first_colon() {
    let f = parse_found("a.rs:1:1: 1:1\nargs:\nk: a::b: c\n").unwrap();
    assert_eq!(args_of(&f), vec![pair("k", "a::b: c")]);
}

#[test]
fn parse_found_reads_lines_that_end_with_carriage_return_and_newline() {
    let f = parse_found("a.rs:1:1: 1:1\r\nsrc: s\r\nargs:\r\nk: v\r\n").unwrap();
    assert_eq!(f.src(), "s");
    assert_eq!(args_of(&f), vec![pair("k", "v")]);
}

#[test]
fn parse_found_orders_captures_by_length_then_by_name() {
    let f = parse_found("a.rs:1:1: 1:1\nargs:\nb: 1\nccc: 2\na: 3\ndd: 4\n").unwrap();
    assert_eq!(
        args_of(&f),
        vec![pair("ccc", "2"), pair("dd", "4"), pair("a", "3"), pair("b", "1")]
    );
}

#[test]
fn parse_found_fails_without_a_header() {
    assert_eq!(parse_found("Found { nothing }").err(), Some(WeaveError::ArtifactParse));
    assert_eq!(parse_found("").err(), Some(WeaveError::ArtifactParse));
    assert_eq!(parse_found("a.rs:1:2 3:4").err(), Some(WeaveError::ArtifactParse));
    assert_eq!(parse_found("a.rb:1:2: 3:4").err(), Some(WeaveError::ArtifactParse));
}

#[test]
fn parse_found_fails_where_the_end_is_before_the_start() {
    assert_eq!(parse_found("a.rs:3:1: 2:9").err(), Some(WeaveError::ArtifactParse));
    assert_eq!(parse_found("a.rs:3:5: 3:4").err(), Some(WeaveError::ArtifactParse));
    assert!(parse_found("a.rs:3:5: 3:5").is_ok());
}

#[test]
fn parse_found_fails_where_a_number_does_not_fit() {
    let block = "a.rs:340282366920938463463374607431768211456:1: 2:9";
    assert_eq!(parse_found(block).err(), Some(WeaveError::ArtifactParse));
}

#[test]
fn parse_found_fails_for_digits_that_are_not_decimal_digits() {
    assert_eq!(parse_found("a.rs:\u{661}:1: 2:9").err(), Some(WeaveError::ArtifactParse));
}

#[test]
fn found_from_header_reads_the_groups() {
    let groups = vec![
        Some("whole".to_string()),
        Some("lib.rs".to_string()),
        Some("12".to_string()),
        Some("007".to_string()),
        Some("12".to_string()),
        Some("9".to_string()),
    ];
    let f = found_from_header("src: it\n", &groups).unwrap();
    assert_eq!(f.file(), "lib.rs");
    assert_eq!(f.start(), at(12, 7));
    assert_eq!(f.end(), at(12, 9));
    assert_eq!(f.src(), "it");
}

#[test]
fn found_from_header_fails_where_a_group_is_missing() {
    let mut groups = vec![
        Some("whole".to_string()),
        Some("lib.rs".to_string()),
        Some("1".to_string()),
        Some("1".to_string()),
        Some("1".to_string()),
    ];
    assert_eq!(found_from_header("", &groups).err(), Some(WeaveError::ArtifactParse));
    groups.push(None);
    assert_eq!(found_from_header("", &groups).err(), Some(WeaveError::ArtifactParse));
    groups[5] = Some("+1".to_string());
    assert_eq!(found_from_header("", &groups).err(), Some(WeaveError::ArtifactParse));
    groups[5] = Some("".to_string());
    assert_eq!(found_from_header("", &groups).err(), Some(WeaveError::ArtifactParse));
    groups[5] = Some("1".to_string());
    assert!(found_from_header("", &groups).is_ok());
}

#[test]
fn a_report_without_a_record_holds_no_match() {
    assert!(parse_aop_outputs("").unwrap().is_empty());
    assert!(parse_aop_outputs("warning: a.rs:1:1: 1:1 unused\n").unwrap().is_empty());
}

#[test]
fn a_report_holds_one_block_for_each_marker() {
    let report = "noise a.rs:9:9: 9:9\nFound { a.rs:1:1: 1:2 }\nFound { a.rs:2:1: 2:2 }";
    let files = parse_aop_outputs(report).unwrap();
    assert_eq!(files.len(), 1);
    assert_eq!(files[0].0, "a.rs");
    assert_eq!(files[0].1.len(), 2);
}

#[test]
fn the_matches_of_a_file_come_last_place_first() {
    let report = "Found { a.rs:2:7: 2:9 }\nFound { a.rs:10:1: 10:2 }\nFound { a.rs:2:3: 2:5 }\nFound { a.rs:1:1: 1:1 }\n";
    let files = parse_aop_outputs(report).unwrap();
    assert_eq!(files.len(), 1);
    let set = &files[0].1;
    let starts: Vec<Pos> = (0..set.len()).map(|i| set.records()[i].start()).collect();
    assert_eq!(starts, vec![at(10, 1), at(2, 7), at(2, 3), at(1, 1)]);
    assert_eq!(set.records().len(), 4);
}

#[test]
fn the_files_come_in_the_order_in_which_the_report_names_them() {
    let report = "Found { b.rs:1:1: 1:2 }\nFound { a.rs:1:1: 1:2 }\nFound { b.rs:5:1: 5:2 }\n";
    let files = parse_aop_outputs(report).unwrap();
    let names: Vec<&str> = files.iter().map(|e| e.0.as_str()).collect();
    assert_eq!(names, vec!["b.rs", "a.rs"]);
    assert_eq!(files[0].1.len(), 2);
    assert_eq!(files[1].1.len(), 1);
    assert_eq!(files[0].1.records()[0].start(), at(5, 1));
    assert_eq!(files[0].1.records()[0].file(), "b.rs");
    assert_eq!(files[0].1.records()[1].start(), at(1, 1));
    assert_eq!(files[1].1.records()[0].file(), "a.rs");
}

#[test]
fn a_block_ends_before_the_next_marker() {
    let report = "Found {\n a.rs:1:1: 1:2\n src: first,\nFound {\n a.rs:3:1: 3:2\n src: second,\n args:\n k: v\n";
    let files = parse_aop_outputs(report).unwrap();
    let set = &files[0].1;
    assert_eq!(set.records()[0].src(), "second");
    assert_eq!(set.records()[0].args().len(), 1);
    assert_eq!(set.records()[1].src(), "first");
    assert!(set.records()[1].args().is_empty());
}

#[test]
fn a_report_with_a_block_without_header_fails() {
    let report = "Found { a.rs:1:1: 1:2 }\nFound { }\nFound { a.rs:2:1: 2:2 }";
    assert_eq!(parse_aop_outputs(report).err(), Some(WeaveError::ArtifactParse));
    assert_eq!(
        parse_aop_outputs("Found {Found { a.rs:1:1: 1:2 }").err(),
        Some(WeaveError::ArtifactParse)
    );
}

#[test]
fn a_report_with_text_that_is_not_ascii() {
    let report =
        "\u{e4}\u{20ac} Found {\n \u{fc}.rs:1:1: 1:2\n src: \u{f6} }Found { \u{fc}.rs:2:1: 2:2 }";
    let files = parse_aop_outputs(report).unwrap();
    assert_eq!(files.len(), 1);
    assert_eq!(files[0].0, "\u{fc}.rs");
    assert_eq!(files[0].1.records()[1].src(), "\u{f6} }");
}
