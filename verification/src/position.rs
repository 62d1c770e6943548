//! Positions in a text, and the offsets they stand for.
//!
//! A position is a line and a column, both counted from 1. Reading a text from
//! its start, the first character is at line 1, column 1; every character moves
//! one column on, and a newline moves to column 1 of the next line.

use crate::error::WeaveError;
use crate::text::chars_of;
use vstd::prelude::*;

verus! {

/// A line and a column of a text, both counted from 1.
#[derive(Clone, Copy, Debug, PartialEq, Eq, Structural, PartialOrd, Ord, Hash)]
pub struct Pos {
    pub line: usize,
    pub col: usize,
}

/// A line and a column as unbounded numbers.
pub struct Place {
    pub line: int,
    pub col: int,
}

impl View for Pos {
    type V = Place;

    open spec fn view(&self) -> Place {
        Place { line: self.line as int, col: self.col as int }
    }
}

impl Place {
    /// `self` comes strictly before `other`: on an earlier line, or on the
    /// same line at an earlier column.
    pub open spec fn before(self, other: Place) -> bool {
        self.line < other.line || (self.line == other.line && self.col < other.col)
    }

    /// `self` does not come after `other`.
    pub open spec fn not_after(self, other: Place) -> bool {
        self == other || self.before(other)
    }
}

impl Pos {
    /// Whether `self` comes strictly before `other`.
    pub fn is_before(&self, other: &Pos) -> (b: bool)
        ensures
            b == self@.before(other@),
    {
        self.line < other.line || (self.line == other.line && self.col < other.col)
    }
}

/// The position of the character at offset `i` of `text`, which depends on
/// the `i` characters before it alone. Offset `text.len()` is the place where
/// a character appended to the text would stand.
pub open spec fn position_at(text: Seq<char>, i: int) -> Place
    decreases i,
{
    if i <= 0 {
        Place { line: 1, col: 1 }
    } else {
        let p = position_at(text, i - 1);
        if text[i - 1] == '\n' {
            Place { line: p.line + 1, col: 1 }
        } else {
            Place { line: p.line, col: p.col + 1 }
        }
    }
}

/// `i` is the offset of the first character of `text` that stands at `pos`.
pub open spec fn resolves_at(text: Seq<char>, pos: Pos, i: int) -> bool {
    &&& 0 <= i < text.len()
    &&& position_at(text, i) == pos@
    &&& forall|j: int| 0 <= j < i ==> position_at(text, j) != pos@
}

/// The offset of the first character of `text` that stands at `pos`, if one
/// does.
pub open spec fn resolve(text: Seq<char>, pos: Pos) -> Option<int> {
    if exists|i: int| resolves_at(text, pos, i) {
        Some(choose|i: int| resolves_at(text, pos, i))
    } else {
        None
    }
}

/// At most one offset resolves a position, so `resolve` names it.
pub proof fn lemma_resolve_unique(text: Seq<char>, pos: Pos, i: int)
    requires
        resolves_at(text, pos, i),
    ensures
        resolve(text, pos) == Some(i),
{
    let k = choose|k: int| resolves_at(text, pos, k);
    assert(k == i) by {
        if k < i {
            assert(position_at(text, k) != pos@);
        } else if i < k {
            assert(position_at(text, i) != pos@);
        }
    }
}

/// The offset of the first character of `text` that stands at `pos`.
pub fn resolve_chars(text: &Vec<char>, pos: Pos) -> (r: Option<usize>)
    ensures
        match r {
            Some(i) => resolve(text@, pos) == Some(i as int) && resolves_at(text@, pos, i as int),
            None => resolve(text@, pos) is None && forall|j: int|
                0 <= j < text.len() ==> position_at(text@, j) != pos@,
        },
{
    let n: usize = text.len();
    if n == 0 {
        return None;
    }
    let mut i: usize = 0;
    let mut line: usize = 1;
    let mut col: usize = 1;
    loop
        invariant
            n == text.len(),
            i < n,
            position_at(text@, i as int) == (Place { line: line as int, col: col as int }),
            line <= i + 1,
            col <= i + 1,
            forall|j: int| 0 <= j < i ==> position_at(text@, j) != pos@,
        decreases n - i,
    {
        if line == pos.line && col == pos.col {
            proof {
                lemma_resolve_unique(text@, pos, i as int);
            }
            return Some(i);
        }
        if i + 1 == n {
            return None;
        }
        if text[i] == '\n' {
            line += 1;
            col = 1;
        } else {
            col += 1;
        }
        i += 1;
    }
}

/// The number of newlines in `s`.
pub open spec fn newlines_in(s: Seq<char>) -> nat
    decreases s.len(),
{
    if s.len() == 0 {
        0
    } else if s.last() == '\n' {
        newlines_in(s.drop_last()) + 1
    } else {
        newlines_in(s.drop_last())
    }
}

/// The number of characters of `s` behind its last newline; the length of
/// `s` where it has none.
pub open spec fn tail_len(s: Seq<char>) -> nat
    decreases s.len(),
{
    if s.len() == 0 || s.last() == '\n' {
        0
    } else {
        tail_len(s.drop_last()) + 1
    }
}

/// The position of a character, counted from what stands before it: the
/// line from the newlines, the column from the characters behind the last of
/// them.
pub open spec fn counted_position(before: Seq<char>) -> Place {
    Place { line: 1 + newlines_in(before) as int, col: 1 + tail_len(before) as int }
}

/// The position of a character is the one counted from what stands before
/// it.
pub proof fn lemma_position_is_counted(text: Seq<char>, i: int)
    requires
        0 <= i <= text.len(),
    ensures
        position_at(text, i) == counted_position(text.take(i)),
    decreases i,
{
    if i > 0 {
        lemma_position_is_counted(text, i - 1);
        assert(text.take(i).drop_last() =~= text.take(i - 1));
        assert(text.take(i).last() == text[i - 1]);
    }
}

/// Resolving a position and counting lines and columns back from the offset
/// gives the position again.
pub proof fn lemma_resolve_round_trip(text: Seq<char>, pos: Pos, i: int)
    requires
        resolve(text, pos) == Some(i),
    ensures
        0 <= i < text.len(),
        counted_position(text.take(i)) == pos@,
{
    assert(resolves_at(text, pos, i));
    lemma_position_is_counted(text, i);
}

/// A character that comes later in a text stands at a later position.
pub proof fn lemma_position_increases(text: Seq<char>, i: int, j: int)
    requires
        0 <= i < j,
    ensures
        position_at(text, i).before(position_at(text, j)),
    decreases j,
{
    if i < j - 1 {
        lemma_position_increases(text, i, j - 1);
    }
}

/// Where two positions resolve in one text, the one that is not after the
/// other resolves to the offset that is not behind the other's.
pub proof fn lemma_resolve_in_order(text: Seq<char>, a: Pos, b: Pos, i: int, j: int)
    requires
        resolves_at(text, a, i),
        resolves_at(text, b, j),
        a@.not_after(b@),
    ensures
        i <= j,
{
    if j < i {
        lemma_position_increases(text, j, i);
    }
}

/// The position of a character depends on the characters before it alone.
pub proof fn lemma_position_of_prefix(a: Seq<char>, b: Seq<char>, i: int)
    requires
        0 <= i <= a.len(),
        i <= b.len(),
        a.take(i) == b.take(i),
    ensures
        position_at(a, i) == position_at(b, i),
    decreases i,
{
    if i > 0 {
        assert(a.take(i - 1) =~= a.take(i).take(i - 1));
        assert(b.take(i - 1) =~= b.take(i).take(i - 1));
        lemma_position_of_prefix(a, b, i - 1);
        assert(a[i - 1] == a.take(i)[i - 1]);
        assert(b[i - 1] == b.take(i)[i - 1]);
    }
}

/// A position that resolves in `a` resolves to the same offset in every text
/// that starts as `a` does up to that offset and has a character there.
pub proof fn lemma_resolve_of_prefix(a: Seq<char>, b: Seq<char>, k: int, pos: Pos, i: int)
    requires
        resolve(a, pos) == Some(i),
        i <= k <= a.len(),
        k <= b.len(),
        i < b.len(),
        a.take(k) == b.take(k),
    ensures
        resolve(b, pos) == Some(i),
{
    assert(resolves_at(a, pos, i));
    assert forall|j: int| 0 <= j <= i implies position_at(a, j) == position_at(b, j) by {
        assert(a.take(j) =~= a.take(k).take(j));
        assert(b.take(j) =~= b.take(k).take(j));
        lemma_position_of_prefix(a, b, j);
    }
    assert(resolves_at(b, pos, i));
    lemma_resolve_unique(b, pos, i);
}

/// The offset of the first character of `src` that stands at `pos`. Where no
/// character of `src` does, `pos` is reported as not found.
pub fn find_index_by_pos(src: &str, pos: Pos) -> (r: Result<usize, WeaveError>)
    ensures
        match r {
            Ok(i) => resolve(src@, pos) == Some(i as int) && resolves_at(src@, pos, i as int),
            Err(e) => e == WeaveError::PositionNotFound(pos) && resolve(src@, pos) is None
                && forall|j: int| 0 <= j < src@.len() ==> position_at(src@, j) != pos@,
        },
{
    match resolve_chars(&chars_of(src), pos) {
        Some(i) => Ok(i),
        None => Err(WeaveError::PositionNotFound(pos)),
    }
}

} // verus!
