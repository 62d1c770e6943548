//! Match reports: the text that an analysis pass leaves behind, and the
//! records it holds.
//!
//! A report is a run of record blocks. A block starts with the record marker
//! and ends before the next marker or with the report. It holds a header,
//! `<file>:<line>:<col>: <line>:<col>`, which names the file and the two ends
//! of the match; a `src:` line with the text that was matched; and, behind an
//! `args:` line, one `key: value` line for each named capture.

use crate::error::WeaveError;
use crate::pattern::{captures_in, first_captures, groups_of, pattern_compiles};
use crate::position::Pos;
use crate::record::{
    insert_arg, insert_found, keys_sorted, lemma_insert_arg_sorted,
    lemma_insert_found_descending, starts_descending, Arg, Found, FoundView, MatchSet,
};
use crate::text::{
    chars_of, contains, copy_range, decimal_usize, find_all, find_char_from, has_substring, lines,
    occurrences, offset_of, offsets_of, parse_decimal, replace, replace_all, rows_of,
    split_lines, string_of, trim, trimmed,
};
use adjacent_pair_iterator::AdjacentPairIterator;
use vstd::prelude::*;

verus! {

/// What every record block starts with.
pub const RECORD_MARKER: &'static str = "Found {";

/// What the line with the matched text holds.
pub const SRC_MARKER: &'static str = "src:";

/// What the line before the named captures holds.
pub const ARGS_MARKER: &'static str = "args:";

/// The header of a record, as a regular expression: the path of a Rust file
/// without white space, the line and the column where the match starts, and
/// the line and the column where it ends.
pub const HEADER_PATTERN: &'static str = r#"([^\s]+\.rs):(\d+):(\d+):\s+(\d+):(\d+)"#;

/// The text of group `i`, where the match has such a group and it took part.
pub open spec fn group_text(groups: Seq<Option<Seq<char>>>, i: int) -> Option<Seq<char>> {
    if 0 <= i < groups.len() {
        groups[i]
    } else {
        None
    }
}

/// The number that group `i` holds, where it holds a decimal numeral that
/// fits.
pub open spec fn group_number(groups: Seq<Option<Seq<char>>>, i: int) -> Option<usize> {
    match group_text(groups, i) {
        Some(t) => decimal_usize(t),
        None => None,
    }
}

/// The file, the start and the end that the groups of a header name. There
/// are none where a group is missing, where a number is no decimal numeral or
/// does not fit, or where the end comes before the start.
pub open spec fn header_of(groups: Seq<Option<Seq<char>>>) -> Option<(Seq<char>, Pos, Pos)> {
    match (
        group_text(groups, 1),
        group_number(groups, 2),
        group_number(groups, 3),
        group_number(groups, 4),
        group_number(groups, 5),
    ) {
        (Some(file), Some(line), Some(col), Some(end_line), Some(end_col)) => {
            let start = Pos { line, col };
            let end = Pos { line: end_line, col: end_col };
            if start@.not_after(end@) {
                Some((file, start, end))
            } else {
                None
            }
        },
        _ => None,
    }
}

/// The text with which a backslash is replaced: none.
pub open spec fn nothing() -> Seq<char> {
    Seq::empty()
}

/// The value of a `key: value` line: what follows the first colon, without
/// the spaces, double quotes and commas around it and without any backslash.
/// Empty where the line has no colon.
pub open spec fn value_of(line: Seq<char>) -> Seq<char> {
    let k = offset_of(line, ':');
    if k < line.len() {
        replace_all(trim(line.skip(k as int + 1), true), seq!['\\'], nothing())
    } else {
        Seq::empty()
    }
}

/// The key of a `key: value` line: what stands before the first colon,
/// without the spaces and double quotes around it.
pub open spec fn key_of(line: Seq<char>) -> Seq<char> {
    trim(line.take(offset_of(line, ':') as int), false)
}

/// The matched text that a block names: the value of its first line that
/// holds the `src:` marker; empty where no line does.
pub open spec fn snippet_of(lines: Seq<Seq<char>>) -> Seq<char>
    decreases lines.len(),
{
    if lines.len() == 0 {
        Seq::empty()
    } else if contains(lines[0], SRC_MARKER@) {
        value_of(lines[0])
    } else {
        snippet_of(lines.drop_first())
    }
}

/// Whether one of `lines` holds the `args:` marker.
pub open spec fn args_open(lines: Seq<Seq<char>>) -> bool {
    exists|j: int| 0 <= j < lines.len() && contains(lines[j], ARGS_MARKER@)
}

/// The named captures that a block names. Every line behind the first line
/// with the `args:` marker that has a colon and not that marker gives one,
/// and a later line with the same key overrides an earlier one.
pub open spec fn captures_of(lines: Seq<Seq<char>>) -> Seq<Arg>
    decreases lines.len(),
{
    if lines.len() == 0 {
        Seq::empty()
    } else {
        let line = lines.last();
        let earlier = captures_of(lines.drop_last());
        if args_open(lines.drop_last()) && !contains(line, ARGS_MARKER@) && offset_of(line, ':')
            < line.len() {
            insert_arg(earlier, key_of(line), value_of(line))
        } else {
            earlier
        }
    }
}

/// The record that a block holds, given the groups that its header matched.
pub open spec fn found_of(block: Seq<char>, groups: Seq<Option<Seq<char>>>) -> Option<FoundView> {
    match header_of(groups) {
        Some((file, start, end)) => Some(
            FoundView {
                file,
                src: snippet_of(lines(block)),
                start,
                end,
                args: captures_of(lines(block)),
            },
        ),
        None => None,
    }
}

/// The record that a block holds: that of the first header in it. There is
/// none where the block has no header.
pub open spec fn parse_found_spec(block: Seq<char>) -> Option<FoundView> {
    if pattern_compiles(HEADER_PATTERN@) {
        match first_captures(HEADER_PATTERN@, block) {
            Some(groups) => found_of(block, groups),
            None => None,
        }
    } else {
        None
    }
}

/// `r` is the record `expected`, or the parse error where there is none.
pub open spec fn is_parsed(r: Result<Found, WeaveError>, expected: Option<FoundView>) -> bool {
    match r {
        Ok(f) => expected == Some(f@),
        Err(e) => e == WeaveError::ArtifactParse && expected is None,
    }
}

/// The number that group `i` holds.
fn number_in(groups: &Vec<Option<String>>, i: usize) -> (r: Option<usize>)
    ensures
        r == group_number(groups_of(groups@), i as int),
{
    if i < groups.len() {
        match &groups[i] {
            Some(t) => parse_decimal(&chars_of(t.as_str())),
            None => None,
        }
    } else {
        None
    }
}

/// The value of a `key: value` line whose first colon is at offset `k`.
fn value_in(line: &Vec<char>, k: usize) -> (v: Vec<char>)
    requires
        k == offset_of(line@, ':'),
        k < line.len(),
    ensures
        v@ == value_of(line@),
{
    let raw = trimmed(line, k + 1, line.len(), true);
    let mut backslash: Vec<char> = Vec::new();
    backslash.push('\\');
    let none: Vec<char> = Vec::new();
    proof {
        assert(backslash@ =~= seq!['\\']);
        assert(none@ =~= nothing());
        assert(line@.subrange(k + 1, line.len() as int) =~= line@.skip(k + 1));
    }
    replace(&raw, &backslash, &none)
}

/// The matched text that the lines of a block name.
fn snippet_in(rows: &Vec<Vec<char>>) -> (v: Vec<char>)
    ensures
        v@ == snippet_of(rows_of(rows@)),
{
    let marker = chars_of(SRC_MARKER);
    let mut i: usize = 0;
    proof {
        assert(rows_of(rows@).skip(0) =~= rows_of(rows@));
    }
    while i < rows.len()
        invariant
            i <= rows.len(),
            marker@ == SRC_MARKER@,
            snippet_of(rows_of(rows@)) == snippet_of(rows_of(rows@).skip(i as int)),
        decreases rows.len() - i,
    {
        let ghost rest = rows_of(rows@).skip(i as int);
        let line = &rows[i];
        assert(rest[0] == line@);
        if has_substring(line, &marker) {
            let k: usize = find_char_from(line, ':', 0);
            proof {
                assert(line@.skip(0) =~= line@);
            }
            if k < line.len() {
                return value_in(line, k);
            } else {
                return Vec::new();
            }
        }
        proof {
            assert(rest.drop_first() =~= rows_of(rows@).skip(i + 1));
        }
        i += 1;
    }
    Vec::new()
}

/// The record that `block` holds, given the groups that its header matched:
/// the whole match first, then the file, the line and the column of the
/// start, and the line and the column of the end.
pub fn found_from_header(block: &str, groups: &Vec<Option<String>>) -> (r: Result<
    Found,
    WeaveError,
>)
    ensures
        is_parsed(r, found_of(block@, groups_of(groups@))),
{
    let file = if 1 < groups.len() {
        match &groups[1] {
            Some(t) => t.clone(),
            None => {
                return Err(WeaveError::ArtifactParse);
            },
        }
    } else {
        return Err(WeaveError::ArtifactParse);
    };
    let (line, col, end_line, end_col) = match (
        number_in(groups, 2),
        number_in(groups, 3),
        number_in(groups, 4),
        number_in(groups, 5),
    ) {
        (Some(a), Some(b), Some(c), Some(d)) => (a, b, c, d),
        _ => {
            return Err(WeaveError::ArtifactParse);
        },
    };
    let start = Pos { line, col };
    let end = Pos { line: end_line, col: end_col };
    let rows = split_lines(&chars_of(block));
    let src = string_of(&snippet_in(&rows));
    let mut found = match Found::new(file, src, start, end) {
        Some(f) => f,
        None => {
            return Err(WeaveError::ArtifactParse);
        },
    };
    let marker = chars_of(ARGS_MARKER);
    let ghost all = rows_of(rows@);
    let ghost base = found@;
    let mut open: bool = false;
    let mut i: usize = 0;
    proof {
        assert(all.take(0) =~= Seq::<Seq<char>>::empty());
    }
    while i < rows.len()
        invariant
            i <= rows.len(),
            marker@ == ARGS_MARKER@,
            all == rows_of(rows@),
            open == args_open(all.take(i as int)),
            found@ == (FoundView { args: captures_of(all.take(i as int)), ..base }),
        decreases rows.len() - i,
    {
        let row = &rows[i];
        let ghost upto = all.take(i + 1);
        proof {
            assert(upto.drop_last() =~= all.take(i as int));
            assert(upto.last() == row@);
            assert(args_open(upto) == (open || contains(row@, ARGS_MARKER@))) by {
                if args_open(upto) {
                    let j = choose|j: int| 0 <= j < upto.len() && contains(upto[j], ARGS_MARKER@);
                    if j < i {
                        assert(all.take(i as int)[j] == upto[j]);
                    }
                }
                if open {
                    let j = choose|j: int|
                        0 <= j < all.take(i as int).len() && contains(
                            all.take(i as int)[j],
                            ARGS_MARKER@,
                        );
                    assert(upto[j] == all.take(i as int)[j]);
                }
                if contains(row@, ARGS_MARKER@) {
                    assert(upto[i as int] == row@);
                }
            }
        }
        if has_substring(row, &marker) {
            open = true;
        } else if open {
            let k: usize = find_char_from(row, ':', 0);
            proof {
                assert(row@.skip(0) =~= row@);
            }
            if k < row.len() {
                let key = trimmed(row, 0, k, false);
                let value = value_in(row, k);
                proof {
                    assert(row@.subrange(0, k as int) =~= row@.take(k as int));
                }
                found.insert_arg(string_of(&key), string_of(&value));
            }
        }
        i += 1;
    }
    proof {
        assert(all.take(rows.len() as int) =~= all);
    }
    Ok(found)
}

/// The record that `s` holds: that of the first header in it, with the
/// matched text and the named captures that its lines name.
pub fn parse_found(s: &str) -> (r: Result<Found, WeaveError>)
    ensures
        is_parsed(r, parse_found_spec(s@)),
{
    match captures_in(HEADER_PATTERN, s) {
        Ok(Some(groups)) => found_from_header(s, &groups),
        Ok(None) => Err(WeaveError::ArtifactParse),
        Err(_) => Err(WeaveError::ArtifactParse),
    }
}

/// Every element of `v` but the last with the element behind it, as
/// `adjacent_pair_iterator::AdjacentPairIterator::adjacent_pairs` yields
/// them.
///
/// Not proved: that the crate pairs the element at each offset with the one
/// at the next offset, in order, and yields nothing for fewer than two
/// elements.
#[verifier::external_body]
fn neighbours(v: &Vec<usize>) -> (r: Vec<(usize, usize)>)
    ensures
        r@.len() == if v@.len() == 0 {
            0
        } else {
            v@.len() - 1
        },
        forall|i: int| 0 <= i < r@.len() ==> r@[i] == (v@[i], v@[i + 1]),
{
    v.iter().copied().adjacent_pairs().collect()
}

/// Where the record blocks of a report start and end: the offsets of the
/// record marker, and the length of the report.
pub open spec fn block_bounds(report: Seq<char>) -> Seq<int> {
    occurrences(report, RECORD_MARKER@, 0).push(report.len() as int)
}

/// The record blocks of a report: each runs from one record marker to the
/// next, the last to the end of the report. What stands before the first
/// marker belongs to no block.
pub open spec fn blocks_of(report: Seq<char>) -> Seq<Seq<char>> {
    let bounds = block_bounds(report);
    Seq::new(
        (bounds.len() - 1) as nat,
        |i: int| report.subrange(bounds[i], bounds[i + 1]),
    )
}

/// A file and its matches, in the order in which they are woven.
pub type FileMatches = (Seq<char>, Seq<FoundView>);

/// `files` with `f` added to the matches of its file; a file that had none
/// is added behind the others.
pub open spec fn add_found(files: Seq<FileMatches>, f: FoundView) -> Seq<FileMatches>
    decreases files.len(),
{
    if files.len() == 0 {
        seq![(f.file, seq![f])]
    } else if files[0].0 == f.file {
        seq![(f.file, insert_found(files[0].1, f))] + files.drop_first()
    } else {
        seq![files[0]] + add_found(files.drop_first(), f)
    }
}

/// The matches that `blocks` hold, file by file; none where a block holds no
/// record.
pub open spec fn matches_of(blocks: Seq<Seq<char>>) -> Option<Seq<FileMatches>>
    decreases blocks.len(),
{
    if blocks.len() == 0 {
        Some(Seq::empty())
    } else {
        match (matches_of(blocks.drop_last()), parse_found_spec(blocks.last())) {
            (Some(files), Some(f)) => Some(add_found(files, f)),
            _ => None,
        }
    }
}

/// The files and matches that the entries of `v` hold.
pub open spec fn files_of(v: Seq<(String, MatchSet)>) -> Seq<FileMatches> {
    v.map_values(|e: (String, MatchSet)| (e.0@, e.1@))
}

/// No file occurs twice.
pub open spec fn files_distinct(files: Seq<FileMatches>) -> bool {
    forall|i: int, j: int| 0 <= i < j < files.len() ==> files[i].0 != files[j].0
}

/// Every match stands under the file it was found in.
pub open spec fn files_own_matches(files: Seq<FileMatches>) -> bool {
    forall|i: int, k: int|
        0 <= i < files.len() && 0 <= k < files[i].1.len() ==> (#[trigger] files[i].1[k]).file
            == files[i].0
}

/// Where no file of `files` below `i` is that of `f`, adding `f` goes by the
/// entry at `i`.
proof fn lemma_add_found_at(files: Seq<FileMatches>, f: FoundView, i: int)
    requires
        0 <= i <= files.len(),
        forall|j: int| 0 <= j < i ==> files[j].0 != f.file,
        i < files.len() ==> files[i].0 == f.file,
    ensures
        add_found(files, f) == if i < files.len() {
            files.update(i, (f.file, insert_found(files[i].1, f)))
        } else {
            files.push((f.file, seq![f]))
        },
    decreases i,
{
    let goal = if i < files.len() {
        files.update(i, (f.file, insert_found(files[i].1, f)))
    } else {
        files.push((f.file, seq![f]))
    };
    if i == 0 {
        assert(add_found(files, f) =~= goal);
    } else {
        let rest = files.drop_first();
        assert forall|j: int| 0 <= j < i - 1 implies rest[j].0 != f.file by {
            assert(rest[j] == files[j + 1]);
        }
        lemma_add_found_at(rest, f, i - 1);
        assert(add_found(files, f) =~= goal);
    }
}

/// Whether `a` and `b` hold the same text.
fn same_text(a: &str, b: &str) -> (r: bool)
    ensures
        r == (a@ == b@),
{
    let x = chars_of(a);
    let y = chars_of(b);
    if x.len() != y.len() {
        return false;
    }
    let mut i: usize = 0;
    while i < x.len()
        invariant
            x@ == a@,
            y@ == b@,
            x.len() == y.len(),
            i <= x.len(),
            forall|j: int| 0 <= j < i ==> x@[j] == y@[j],
        decreases x.len() - i,
    {
        if x[i] != y[i] {
            assert(a@[i as int] != b@[i as int]);
            return false;
        }
        i += 1;
    }
    assert(x@ =~= y@);
    true
}

/// Adds `f` to the matches of its file.
fn add_to_files(files: &mut Vec<(String, MatchSet)>, f: Found)
    ensures
        files_of(final(files)@) == add_found(files_of(old(files)@), f@),
{
    let ghost before = files_of(files@);
    let mut i: usize = 0;
    while i < files.len() && !same_text(files[i].0.as_str(), f.file())
        invariant
            i <= files.len(),
            files_of(files@) == before,
            forall|j: int| 0 <= j < i ==> before[j].0 != f@.file,
        decreases files.len() - i,
    {
        i += 1;
    }
    proof {
        lemma_add_found_at(before, f@, i as int);
    }
    if i < files.len() {
        let (name, mut set) = files.remove(i);
        set.push(f);
        files.insert(i, (name, set));
        assert(files_of(files@) =~= add_found(before, f@));
    } else {
        let name = string_of(&chars_of(f.file()));
        let mut set = MatchSet::new();
        set.push(f);
        files.push((name, set));
        assert(files_of(files@) =~= add_found(before, f@));
    }
}

/// The matches that a report holds, file by file: the files in the order in
/// which the report first names them, the matches of each in the order in
/// which they are woven. A report without a record marker holds none.
pub fn parse_aop_outputs(s: &str) -> (r: Result<Vec<(String, MatchSet)>, WeaveError>)
    ensures
        match r {
            Ok(files) => matches_of(blocks_of(s@)) == Some(files_of(files@)) && files_sound(
                files_of(files@),
            ),
            Err(e) => e == WeaveError::ArtifactParse && matches_of(blocks_of(s@)) is None,
        },
{
    proof {
        lemma_matches_of_sound(blocks_of(s@));
    }
    let text = chars_of(s);
    let marker = chars_of(RECORD_MARKER);
    let mut bounds = find_all(&text, &marker);
    let ghost starts = bounds@;
    bounds.push(text.len());
    let pairs = neighbours(&bounds);
    let ghost blocks = blocks_of(s@);
    proof {
        assert(offsets_of(bounds@) =~= block_bounds(s@));
        assert(blocks.take(0) =~= Seq::<Seq<char>>::empty());
    }
    let mut files: Vec<(String, MatchSet)> = Vec::new();
    let mut i: usize = 0;
    assert(files_of(files@) =~= Seq::<FileMatches>::empty());
    while i < pairs.len()
        invariant
            i <= pairs.len(),
            text@ == s@,
            blocks == blocks_of(s@),
            offsets_of(bounds@) == block_bounds(s@),
            bounds@.len() == starts.len() + 1,
            bounds@.take(starts.len() as int) == starts,
            bounds@[starts.len() as int] == text.len(),
            forall|k: int| 0 <= k < starts.len() ==> starts[k] + marker.len() <= text.len(),
            forall|k: int, j: int| 0 <= k < j < starts.len() ==> starts[k] + marker.len() <= starts[j],
            pairs@.len() == bounds@.len() - 1,
            forall|k: int| 0 <= k < pairs@.len() ==> pairs@[k] == (bounds@[k], bounds@[k + 1]),
            matches_of(blocks.take(i as int)) == Some(files_of(files@)),
        decreases pairs.len() - i,
    {
        let (from, to) = pairs[i];
        proof {
            assert(bounds@[i as int] == starts[i as int]);
            if i + 1 < starts.len() {
                assert(bounds@[i + 1] == starts[i + 1]);
            }
            assert(offsets_of(bounds@)[i as int] == from);
            assert(offsets_of(bounds@)[i + 1] == to);
            assert(blocks.take(i + 1).drop_last() =~= blocks.take(i as int));
            assert(blocks.take(i + 1).last() == s@.subrange(from as int, to as int));
        }
        let block = string_of(&copy_range(&text, from, to));
        match parse_found(block.as_str()) {
            Ok(f) => {
                add_to_files(&mut files, f);
            },
            Err(e) => {
                proof {
                    lemma_matches_of_fails(blocks, i + 1);
                }
                return Err(e);
            },
        }
        i += 1;
    }
    proof {
        assert(blocks.take(pairs.len() as int) =~= blocks);
    }
    Ok(files)
}

/// Where the first `i` blocks hold no report, the whole run holds none.
proof fn lemma_matches_of_fails(blocks: Seq<Seq<char>>, i: int)
    requires
        0 <= i <= blocks.len(),
        matches_of(blocks.take(i)) is None,
    ensures
        matches_of(blocks) is None,
    decreases blocks.len() - i,
{
    if i < blocks.len() {
        assert(blocks.take(i + 1).drop_last() =~= blocks.take(i));
        lemma_matches_of_fails(blocks, i + 1);
    } else {
        assert(blocks.take(i) =~= blocks);
    }
}

/// What holds of the matches of every report: no file occurs twice, every
/// match stands under the file it was found in, and the matches of a file
/// stand in the order in which they are woven, none ending before it starts
/// and each with its captures in the order of replacement.
pub open spec fn files_sound(files: Seq<FileMatches>) -> bool {
    &&& files_distinct(files)
    &&& files_own_matches(files)
    &&& forall|i: int| 0 <= i < files.len() ==> starts_descending(#[trigger] files[i].1)
    &&& forall|i: int, k: int|
        0 <= i < files.len() && 0 <= k < files[i].1.len() ==> (#[trigger] files[i].1[k])
            .well_formed()
}

/// The captures that a block names stand in the order of replacement.
pub proof fn lemma_captures_sorted(lines: Seq<Seq<char>>)
    ensures
        keys_sorted(captures_of(lines)),
    decreases lines.len(),
{
    if lines.len() > 0 {
        lemma_captures_sorted(lines.drop_last());
        lemma_insert_arg_sorted(
            captures_of(lines.drop_last()),
            key_of(lines.last()),
            value_of(lines.last()),
        );
    }
}

/// The record that a block holds does not end before it starts, has its
/// captures in the order of replacement, and names the file of its header.
pub proof fn lemma_found_of_well_formed(block: Seq<char>, groups: Seq<Option<Seq<char>>>)
    requires
        found_of(block, groups) is Some,
    ensures
        found_of(block, groups)->0.well_formed(),
        Some(found_of(block, groups)->0.file) == group_text(groups, 1),
{
    lemma_captures_sorted(lines(block));
}

/// A match put into a set that holds it and more is in it afterwards, with
/// all that was there, and nothing else.
proof fn lemma_insert_found_holds(s: Seq<FoundView>, f: FoundView)
    ensures
        insert_found(s, f).len() == s.len() + 1,
        forall|k: int|
            0 <= k < insert_found(s, f).len() ==> #[trigger] insert_found(s, f)[k] == f || s.contains(
                insert_found(s, f)[k],
            ),
    decreases s.len(),
{
    let r = insert_found(s, f);
    if s.len() == 0 {
    } else if s[0].start@.before(f.start@) {
        assert forall|k: int| 0 <= k < r.len() implies #[trigger] r[k] == f || s.contains(
            r[k],
        ) by {
            if k > 0 {
                assert(r[k] == s[k - 1]);
            }
        }
    } else {
        let rest = s.drop_first();
        lemma_insert_found_holds(rest, f);
        let tail = insert_found(rest, f);
        assert forall|k: int| 0 <= k < r.len() implies #[trigger] r[k] == f || s.contains(
            r[k],
        ) by {
            if k == 0 {
                assert(r[0] == s[0]);
            } else {
                assert(r[k] == tail[k - 1]);
                if tail[k - 1] != f {
                    let j = choose|j: int| 0 <= j < rest.len() && rest[j] == tail[k - 1];
                    assert(s[j + 1] == tail[k - 1]);
                }
            }
        }
    }
}

/// Adding a well-formed match keeps the matches sound.
pub proof fn lemma_add_found_sound(files: Seq<FileMatches>, f: FoundView)
    requires
        files_sound(files),
        f.well_formed(),
    ensures
        files_sound(add_found(files, f)),
{
    let i = first_of_file(files, f.file, 0);
    lemma_first_of_file(files, f.file, 0);
    lemma_add_found_at(files, f, i);
    let r = add_found(files, f);
    if i < files.len() {
        let set = insert_found(files[i].1, f);
        lemma_insert_found_descending(files[i].1, f);
        lemma_insert_found_holds(files[i].1, f);
        assert forall|a: int, b: int| 0 <= a < b < r.len() implies r[a].0 != r[b].0 by {
            assert(r[a].0 == files[a].0);
            assert(r[b].0 == files[b].0);
        }
        assert forall|a: int, k: int| 0 <= a < r.len() && 0 <= k < r[a].1.len() implies (
        #[trigger] r[a].1[k]).file == r[a].0 && r[a].1[k].well_formed() by {
            if a == i {
                if set[k] != f {
                    let j = choose|j: int| 0 <= j < files[i].1.len() && files[i].1[j] == set[k];
                    assert(files[i].1[j].file == files[i].0);
                }
            } else {
                assert(r[a] == files[a]);
                assert(files[a].1[k].file == files[a].0);
            }
        }
        assert forall|a: int| 0 <= a < r.len() implies starts_descending(#[trigger] r[a].1) by {
            if a != i {
                assert(r[a] == files[a]);
            }
        }
    } else {
        assert forall|a: int, b: int| 0 <= a < b < r.len() implies r[a].0 != r[b].0 by {
            assert(r[a] == files[a]);
            if b < files.len() {
                assert(r[b] == files[b]);
            }
        }
        assert forall|a: int, k: int| 0 <= a < r.len() && 0 <= k < r[a].1.len() implies (
        #[trigger] r[a].1[k]).file == r[a].0 && r[a].1[k].well_formed() by {
            if a < files.len() {
                assert(r[a] == files[a]);
                assert(files[a].1[k].file == files[a].0);
            }
        }
        assert forall|a: int| 0 <= a < r.len() implies starts_descending(#[trigger] r[a].1) by {
            if a < files.len() {
                assert(r[a] == files[a]);
            }
        }
    }
}

/// The offset of the first entry of `files`, not below `from`, that is for
/// `file`; the length of `files` where there is none.
spec fn first_of_file(files: Seq<FileMatches>, file: Seq<char>, from: int) -> int
    decreases files.len() - from,
{
    if from < 0 || from >= files.len() {
        files.len() as int
    } else if files[from].0 == file {
        from
    } else {
        first_of_file(files, file, from + 1)
    }
}

/// `first_of_file` is what it is called.
proof fn lemma_first_of_file(files: Seq<FileMatches>, file: Seq<char>, from: int)
    requires
        0 <= from <= files.len(),
    ensures
        from <= first_of_file(files, file, from) <= files.len(),
        forall|j: int| from <= j < first_of_file(files, file, from) ==> files[j].0 != file,
        first_of_file(files, file, from) < files.len() ==> files[first_of_file(
            files,
            file,
            from,
        )].0 == file,
    decreases files.len() - from,
{
    if from < files.len() && files[from].0 != file {
        lemma_first_of_file(files, file, from + 1);
    }
}

/// The matches that a run of blocks holds are sound.
pub proof fn lemma_matches_of_sound(blocks: Seq<Seq<char>>)
    ensures
        matches_of(blocks) is Some ==> files_sound(matches_of(blocks)->0),
    decreases blocks.len(),
{
    if blocks.len() > 0 && matches_of(blocks) is Some {
        lemma_matches_of_sound(blocks.drop_last());
        let block = blocks.last();
        let groups = first_captures(HEADER_PATTERN@, block)->0;
        lemma_found_of_well_formed(block, groups);
        lemma_add_found_sound(matches_of(blocks.drop_last())->0, parse_found_spec(block)->0);
    }
}

} // verus!
