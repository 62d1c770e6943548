use cargo_aspect::error::WeaveError;
use cargo_aspect::position::{find_index_by_pos, resolve_chars, Pos};

fn at(line: usize, col: usize) -> Pos {
    Pos { line, col }
}

#[test]
fn first_character_is_line_one_column_one() {
    assert_eq!(find_index_by_pos("abc", at(1, 1)), Ok(0));
}

#[test]
fn column_counts_characters_of_the_line() {
    assert_eq!(find_index_by_pos("abc", at(1, 3)), Ok(2));
}

#[test]
fn newline_starts_the_next_line_at_column_one() {
    let text = "ab\ncd\n";
    assert_eq!(find_index_by_pos(text, at(1, 3)), Ok(2));
    assert_eq!(find_index_by_pos(text, at(2, 1)), Ok(3));
    assert_eq!(find_index_by_pos(text, at(2, 2)), Ok(4));
    assert_eq!(find_index_by_pos(text, at(2, 3)), Ok(5));
}

#[test]
fn place_behind_the_last_character_is_not_found() {
    assert_eq!(
        find_index_by_pos("ab", at(1, 3)),
        Err(WeaveError::PositionNotFound(at(1, 3)))
    );
    assert_eq!(
        find_index_by_pos("ab\n", at(2, 1)),
        Err(WeaveError::PositionNotFound(at(2, 1)))
    );
}

#[test]
fn nothing_is_found_in_the_empty_text() {
    assert_eq!(
        find_index_by_pos("", at(1, 1)),
        Err(WeaveError::PositionNotFound(at(1, 1)))
    );
}

#[test]
fn line_or_column_zero_is_not_found() {
    assert_eq!(
        find_index_by_pos("abc", at(0, 1)),
        Err(WeaveError::PositionNotFound(at(0, 1)))
    );
    assert_eq!(
        find_index_by_pos("abc", at(1, 0)),
        Err(WeaveError::PositionNotFound(at(1, 0)))
    );
}

#[test]
fn column_beyond_the_line_is_not_found() {
    assert_eq!(
        find_index_by_pos("ab\ncd", at(1, 4)),
        Err(WeaveError::PositionNotFound(at(1, 4)))
    );
}

#[test]
fn carriage_return_takes_a_column() {
    let text = "a\r\nb";
    assert_eq!(find_index_by_pos(text, at(1, 2)), Ok(1));
    assert_eq!(find_index_by_pos(text, at(1, 3)), Ok(2));
    assert_eq!(find_index_by_pos(text, at(2, 1)), Ok(3));
}

#[test]
fn offsets_count_characters_not_bytes() {
    let text = "é€x\nä";
    assert_eq!(find_index_by_pos(text, at(1, 3)), Ok(2));
    assert_eq!(find_index_by_pos(text, at(2, 1)), Ok(4));
}

#[test]
fn resolving_and_counting_back_gives_the_position() {
    let text = "fn main() {\n    call();\n}\n";
    let chars: Vec<char> = text.chars().collect();
    let mut line = 1;
    let mut col = 1;
    for (i, c) in chars.iter().enumerate() {
        let found = find_index_by_pos(text, at(line, col));
        assert_eq!(found, Ok(i));
        let before = &chars[..i];
        let newlines = before.iter().filter(|c| **c == '\n').count();
        let tail = before.iter().rev().take_while(|c| **c != '\n').count();
        assert_eq!((1 + newlines, 1 + tail), (line, col));
        if *c == '\n' {
            line += 1;
            col = 1;
        } else {
            col += 1;
        }
    }
}

#[test]
fn resolve_chars_agrees_with_find_index_by_pos() {
    let text: Vec<char> = "ab\ncd".chars().collect();
    assert_eq!(resolve_chars(&text, at(2, 2)), Some(4));
    assert_eq!(resolve_chars(&text, at(3, 1)), None);
}

#[test]
fn positions_are_ordered_by_line_then_column() {
    assert!(at(1, 9).is_before(&at(2, 1)));
    assert!(at(2, 1).is_before(&at(2, 2)));
    assert!(!at(2, 2).is_before(&at(2, 2)));
    assert!(!at(3, 1).is_before(&at(2, 9)));
    assert!(at(1, 9) < at(2, 1));
    assert!(at(2, 1) < at(2, 2));
}
