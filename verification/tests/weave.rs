use cargo_aspect::config::PointCut;
use cargo_aspect::error::WeaveError;
use cargo_aspect::position::Pos;
use cargo_aspect::record::{Found, MatchSet};
use cargo_aspect::weave::{expand_advice, insert_advice};

fn at(line: usize, col: usize) -> Pos {
    Pos { line, col }
}

fn found(src: &str, start: Pos, end: Pos) -> Found {
    Found::new("src/main.rs".to_string(), src.to_string(), start, end).unwrap()
}

fn found_with(src: &str, args: &[(&str, &str)]) -> Found {
    let mut f = found(src, at(1, 1), at(1, 1));
    for (k, v) in args {
        f.insert_arg(k.to_string(), v.to_string());
    }
    f
}

fn pointcut(advice: &str) -> PointCut {
    PointCut { condition: "call".to_string(), advice: advice.to_string() }
}

fn set_of(founds: Vec<Found>) -> MatchSet {
    let mut set = MatchSet::new();
    for f in founds {
        set.push(f);
    }
    set
}

#[test]
fn expand_replaces_a_captured_name() {
    let f = found_with("CALL", &[("ARG1", "x")]);
    assert_eq!(expand_advice("log(ARG1)", &f), "log(x)");
}

#[test]
fn expand_replaces_the_placeholder_by_the_matched_text() {
    let f = found_with("CALL", &[]);
    assert_eq!(expand_advice("before $ after", &f), "before CALL after");
}

#[test]
fn expand_replaces_every_occurrence() {
    let f = found_with("m()", &[("A", "1"), ("B", "22")]);
    assert_eq!(expand_advice("A+B+A;$;$", &f), "1+22+1;m();m()");
}

#[test]
fn expand_takes_the_longer_name_first() {
    let f = found_with("", &[("ARG1", "a"), ("ARG10", "b")]);
    assert_eq!(expand_advice("ARG10 ARG1", &f), "b a");
    let g = found_with("", &[("ARG10", "b"), ("ARG1", "a")]);
    assert_eq!(expand_advice("ARG10 ARG1", &g), "b a");
}

#[test]
fn expand_takes_names_of_one_length_in_lexicographic_order() {
    let f = found_with("", &[("B", "A"), ("A", "B")]);
    assert_eq!(expand_advice("AB", &f), "AA");
}

#[test]
fn expand_puts_the_matched_text_in_last() {
    let f = found_with("KEY", &[("KEY", "$")]);
    assert_eq!(expand_advice("<KEY>", &f), "<KEY>");
    let g = found_with("a$b", &[]);
    assert_eq!(expand_advice("$$", &g), "a$ba$b");
}

#[test]
fn expand_with_an_empty_name_puts_the_text_around_every_character() {
    let f = found_with("", &[("", "-")]);
    assert_eq!(expand_advice("abc", &f), "-a-b-c-");
}

#[test]
fn expand_leaves_a_template_without_names_alone() {
    let f = found_with("CALL", &[("ARG1", "x")]);
    assert_eq!(expand_advice("nothing here", &f), "nothing here");
    assert_eq!(expand_advice("", &f), "");
}

#[test]
fn weaving_a_zero_width_match_inserts_the_advice() {
    let set = set_of(vec![found("", at(1, 9), at(1, 9))]);
    let out = insert_advice("fn f() {}\n".to_string(), &set, &pointcut("/*X*/$"));
    assert_eq!(out, Ok("fn f() {/*X*/}\n".to_string()));
}

#[test]
fn weaving_no_match_changes_nothing() {
    let set = MatchSet::new();
    let text = "fn f() {}\n\u{e9}\r\n".to_string();
    assert_eq!(insert_advice(text.clone(), &set, &pointcut("/*X*/$")), Ok(text));
    assert_eq!(insert_advice(String::new(), &set, &pointcut("$")), Ok(String::new()));
}

#[test]
fn weaving_replaces_the_matched_range() {
    let set = set_of(vec![found("g(1)", at(2, 5), at(2, 9))]);
    let text = "fn f() {\n    g(1);\n}\n".to_string();
    let out = insert_advice(text, &set, &pointcut("log($)"));
    assert_eq!(out, Ok("fn f() {\n    log(g(1));\n}\n".to_string()));
}

#[test]
fn weaving_several_matches_keeps_the_text_around_them() {
    let text = "aaa bbb ccc ddd\n".to_string();
    let set = set_of(vec![
        found("bbb", at(1, 5), at(1, 8)),
        found("ddd", at(1, 13), at(1, 16)),
        found("ccc", at(1, 9), at(1, 12)),
    ]);
    let out = insert_advice(text, &set, &pointcut("<$>")).unwrap();
    assert_eq!(out, "aaa <bbb> <ccc> <ddd>\n");
    assert!(out.starts_with("aaa "));
    assert!(out.ends_with("\n"));
}

#[test]
fn weaving_matches_on_several_lines() {
    let text = "one\ntwo\nthree\n".to_string();
    let set = set_of(vec![
        found("one", at(1, 1), at(1, 4)),
        found("three", at(3, 1), at(3, 6)),
    ]);
    let out = insert_advice(text, &set, &pointcut("[$]"));
    assert_eq!(out, Ok("[one]\ntwo\n[three]\n".to_string()));
}

#[test]
fn weaving_a_match_over_a_line_end() {
    let text = "ab\ncd\n".to_string();
    let set = set_of(vec![found("b\nc", at(1, 2), at(2, 2))]);
    let out = insert_advice(text, &set, &pointcut("-"));
    assert_eq!(out, Ok("a-d\n".to_string()));
}

#[test]
fn weaving_adjacent_matches() {
    let text = "abcd\n".to_string();
    let set = set_of(vec![
        found("ab", at(1, 1), at(1, 3)),
        found("cd", at(1, 3), at(1, 5)),
    ]);
    let out = insert_advice(text, &set, &pointcut("($)"));
    assert_eq!(out, Ok("(ab)(cd)\n".to_string()));
}

#[test]
fn weaving_with_advice_longer_and_shorter_than_the_match() {
    let text = "x = long_name + y;\n".to_string();
    let set = set_of(vec![
        found("long_name", at(1, 5), at(1, 14)),
        found("y", at(1, 17), at(1, 18)),
    ]);
    let mut f = Found::new("src/main.rs".to_string(), "x".to_string(), at(1, 1), at(1, 2)).unwrap();
    f.insert_arg("N".to_string(), "q".to_string());
    let mut set = set;
    set.push(f);
    let out = insert_advice(text, &set, &pointcut("_"));
    assert_eq!(out, Ok("_ = _ + _;\n".to_string()));
}

#[test]
fn weaving_uses_the_captures_of_each_match() {
    let text = "f(1); f(2);\n".to_string();
    let mut a = found("f(1)", at(1, 1), at(1, 5));
    a.insert_arg("ARG".to_string(), "1".to_string());
    let mut b = found("f(2)", at(1, 7), at(1, 11));
    b.insert_arg("ARG".to_string(), "2".to_string());
    let out = insert_advice(text, &set_of(vec![a, b]), &pointcut("{log(ARG); $}"));
    assert_eq!(out, Ok("{log(1); f(1)}; {log(2); f(2)};\n".to_string()));
}

#[test]
fn weaving_counts_characters_not_bytes() {
    let text = "\u{e4}\u{f6} x \u{fc}\n".to_string();
    let set = set_of(vec![found("x", at(1, 4), at(1, 5))]);
    let out = insert_advice(text, &set, &pointcut("\u{20ac}$"));
    assert_eq!(out, Ok("\u{e4}\u{f6} \u{20ac}x \u{fc}\n".to_string()));
}

#[test]
fn weaving_fails_where_the_start_is_not_found() {
    let set = set_of(vec![found("", at(7, 1), at(7, 3))]);
    let out = insert_advice("ab\n".to_string(), &set, &pointcut("$"));
    assert_eq!(out, Err(WeaveError::PositionNotFound(at(7, 1))));
}

#[test]
fn weaving_fails_where_the_end_is_not_found() {
    let set = set_of(vec![found("", at(1, 1), at(1, 4))]);
    let out = insert_advice("ab\n".to_string(), &set, &pointcut("$"));
    assert_eq!(out, Err(WeaveError::PositionNotFound(at(1, 4))));
}

#[test]
fn weaving_fails_for_a_match_at_the_end_of_the_text() {
    let set = set_of(vec![found("", at(1, 3), at(1, 3))]);
    let out = insert_advice("ab".to_string(), &set, &pointcut("$"));
    assert_eq!(out, Err(WeaveError::PositionNotFound(at(1, 3))));
}

#[test]
fn a_second_pointcut_sees_what_the_first_has_woven() {
    let original = "f();\n".to_string();
    let first = set_of(vec![found("f()", at(1, 1), at(1, 4))]);
    let woven = insert_advice(original.clone(), &first, &pointcut("trace($)")).unwrap();
    assert_eq!(woven, "trace(f());\n");
    let second = set_of(vec![found("f()", at(1, 7), at(1, 10))]);
    let both = insert_advice(woven, &second, &pointcut("g($)"));
    assert_eq!(both, Ok("trace(g(f()));\n".to_string()));
    let stale = insert_advice(original, &second, &pointcut("g($)"));
    assert_eq!(stale, Err(WeaveError::PositionNotFound(at(1, 7))));
}

#[test]
fn weaving_again_with_the_same_matches_weaves_again() {
    let set = set_of(vec![found("", at(1, 9), at(1, 9))]);
    let once = insert_advice("fn f() {}\n".to_string(), &set, &pointcut("/*X*/$")).unwrap();
    let twice = insert_advice(once.clone(), &set, &pointcut("/*X*/$")).unwrap();
    assert_eq!(twice, "fn f() {/*X*//*X*/}\n");
    assert_ne!(twice, once);
}
