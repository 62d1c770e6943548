//! Character sequences: conversion from and to strings, searching, trimming,
//! replacing and splitting into lines.

use vstd::prelude::*;

verus! {

pub assume_specification[ String::push ](s: &mut String, c: char)
    ensures
        final(s)@ == old(s)@.push(c),
;

/// `pat` stands in `s` at offset `i`.
pub open spec fn occurs_at(s: Seq<char>, pat: Seq<char>, i: int) -> bool {
    0 <= i && i + pat.len() <= s.len() && s.subrange(i, i + pat.len()) == pat
}

/// `pat` stands somewhere in `s`.
pub open spec fn contains(s: Seq<char>, pat: Seq<char>) -> bool {
    exists|i: int| occurs_at(s, pat, i)
}

/// `i` is the least offset, not below `from`, at which `pat` stands in `s`.
pub open spec fn first_occurrence(s: Seq<char>, pat: Seq<char>, from: int, i: int) -> bool {
    from <= i && occurs_at(s, pat, i) && forall|j: int| from <= j < i ==> !occurs_at(s, pat, j)
}

/// `s` ends with `suffix`.
pub open spec fn ends_with(s: Seq<char>, suffix: Seq<char>) -> bool {
    suffix.len() <= s.len() && s.subrange(s.len() - suffix.len(), s.len() as int) == suffix
}

/// The characters of `s`, in order.
pub fn chars_of(s: &str) -> (v: Vec<char>)
    ensures
        v@ == s@,
{
    let mut v: Vec<char> = Vec::new();
    for c in it: s.chars()
        invariant
            v@ == it.seq().take(it.index()),
    {
        v.push(c);
    }
    v
}

/// The string made of the characters of `v`, in order.
pub fn string_of(v: &Vec<char>) -> (s: String)
    ensures
        s@ == v@,
{
    let mut s = String::new();
    let mut i: usize = 0;
    while i < v.len()
        invariant
            i <= v.len(),
            s@ == v@.take(i as int),
        decreases v.len() - i,
    {
        s.push(v[i]);
        i += 1;
    }
    s
}

/// Appends `src[from..to]` to `dst`.
pub fn append_range(dst: &mut Vec<char>, src: &Vec<char>, from: usize, to: usize)
    requires
        from <= to <= src.len(),
    ensures
        final(dst)@ == old(dst)@ + src@.subrange(from as int, to as int),
{
    let mut i: usize = from;
    while i < to
        invariant
            from <= i <= to <= src.len(),
            dst@ == old(dst)@ + src@.subrange(from as int, i as int),
        decreases to - i,
    {
        dst.push(src[i]);
        i += 1;
    }
}

/// The characters `src[from..to]` as a vector of their own.
pub fn copy_range(src: &Vec<char>, from: usize, to: usize) -> (v: Vec<char>)
    requires
        from <= to <= src.len(),
    ensures
        v@ == src@.subrange(from as int, to as int),
{
    let mut v: Vec<char> = Vec::new();
    append_range(&mut v, src, from, to);
    v
}

/// Whether `pat` stands in `s` at offset `i`.
pub fn matches_at(s: &Vec<char>, pat: &Vec<char>, i: usize) -> (b: bool)
    ensures
        b == occurs_at(s@, pat@, i as int),
{
    if pat.len() > s.len() || i > s.len() - pat.len() {
        return false;
    }
    let mut k: usize = 0;
    while k < pat.len()
        invariant
            k <= pat.len(),
            i + pat.len() <= s.len(),
            forall|j: int| 0 <= j < k ==> s@[i + j] == pat@[j],
        decreases pat.len() - k,
    {
        if s[i + k] != pat[k] {
            assert(s@.subrange(i as int, i + pat.len())[k as int] != pat@[k as int]);
            return false;
        }
        k += 1;
    }
    assert(s@.subrange(i as int, i + pat.len()) =~= pat@);
    true
}

/// The least offset, not below `from`, at which `pat` stands in `s`.
pub fn find_from(s: &Vec<char>, pat: &Vec<char>, from: usize) -> (r: Option<usize>)
    ensures
        match r {
            Some(i) => first_occurrence(s@, pat@, from as int, i as int),
            None => forall|j: int| from <= j ==> !occurs_at(s@, pat@, j),
        },
{
    if pat.len() > s.len() || from > s.len() - pat.len() {
        return None;
    }
    let last: usize = s.len() - pat.len();
    let mut i: usize = from;
    while i < last
        invariant
            from <= i <= last,
            last == s.len() - pat.len(),
            forall|j: int| from <= j < i ==> !occurs_at(s@, pat@, j),
        decreases last - i,
    {
        if matches_at(s, pat, i) {
            return Some(i);
        }
        i += 1;
    }
    if matches_at(s, pat, last) {
        Some(last)
    } else {
        None
    }
}

/// Whether `pat` stands somewhere in `s`.
pub fn has_substring(s: &Vec<char>, pat: &Vec<char>) -> (b: bool)
    ensures
        b == contains(s@, pat@),
{
    find_from(s, pat, 0).is_some()
}

/// Whether `s` ends with `suffix`.
pub fn has_suffix(s: &Vec<char>, suffix: &Vec<char>) -> (b: bool)
    ensures
        b == ends_with(s@, suffix@),
{
    if suffix.len() > s.len() {
        return false;
    }
    matches_at(s, suffix, s.len() - suffix.len())
}

/// The number of characters of `s` before the first `c`; the length of `s`
/// where `c` does not occur.
pub open spec fn offset_of(s: Seq<char>, c: char) -> nat
    decreases s.len(),
{
    if s.len() == 0 || s[0] == c {
        0
    } else {
        1 + offset_of(s.drop_first(), c)
    }
}

/// `offset_of` is the least offset at which `c` stands.
pub proof fn lemma_offset_of(s: Seq<char>, c: char)
    ensures
        offset_of(s, c) <= s.len(),
        offset_of(s, c) < s.len() ==> s[offset_of(s, c) as int] == c,
        forall|j: int| 0 <= j < offset_of(s, c) ==> s[j] != c,
    decreases s.len(),
{
    if s.len() == 0 || s[0] == c {
    } else {
        let rest = s.drop_first();
        lemma_offset_of(rest, c);
        assert forall|j: int| 0 <= j < offset_of(s, c) implies s[j] != c by {
            if j > 0 {
                assert(s[j] == rest[j - 1]);
            }
        }
    }
}

/// The least offset, not below `from`, at which `c` stands in `s`; the length
/// of `s` where there is none.
pub fn find_char_from(s: &Vec<char>, c: char, from: usize) -> (k: usize)
    requires
        from <= s.len(),
    ensures
        from <= k <= s.len(),
        k == from + offset_of(s@.skip(from as int), c),
{
    let mut i: usize = from;
    while i < s.len() && s[i] != c
        invariant
            from <= i <= s.len(),
            offset_of(s@.skip(from as int), c) == (i - from) + offset_of(s@.skip(i as int), c),
        decreases s.len() - i,
    {
        assert(s@.skip(i as int).drop_first() =~= s@.skip(i + 1));
        i += 1;
    }
    i
}

/// Whether `c` is trimmed from the ends of a field: a space or a double
/// quote, and with `commas` a comma too.
pub open spec fn is_padding(c: char, commas: bool) -> bool {
    c == ' ' || c == '"' || (commas && c == ',')
}

/// `s` without the padding at its start.
pub open spec fn trim_start(s: Seq<char>, commas: bool) -> Seq<char>
    decreases s.len(),
{
    if s.len() > 0 && is_padding(s[0], commas) {
        trim_start(s.drop_first(), commas)
    } else {
        s
    }
}

/// `s` without the padding at its end.
pub open spec fn trim_end(s: Seq<char>, commas: bool) -> Seq<char>
    decreases s.len(),
{
    if s.len() > 0 && is_padding(s.last(), commas) {
        trim_end(s.drop_last(), commas)
    } else {
        s
    }
}

/// `s` without the padding at both ends.
pub open spec fn trim(s: Seq<char>, commas: bool) -> Seq<char> {
    trim_end(trim_start(s, commas), commas)
}

/// Whether `c` is trimmed from the ends of a field.
pub fn padding(c: char, commas: bool) -> (b: bool)
    ensures
        b == is_padding(c, commas),
{
    c == ' ' || c == '"' || (commas && c == ',')
}

/// `s[from..to]` without the padding at both ends.
pub fn trimmed(s: &Vec<char>, from: usize, to: usize, commas: bool) -> (v: Vec<char>)
    requires
        from <= to <= s.len(),
    ensures
        v@ == trim(s@.subrange(from as int, to as int), commas),
{
    let mut a: usize = from;
    while a < to && padding(s[a], commas)
        invariant
            from <= a <= to <= s.len(),
            trim_start(s@.subrange(from as int, to as int), commas) == trim_start(
                s@.subrange(a as int, to as int),
                commas,
            ),
        decreases to - a,
    {
        assert(s@.subrange(a as int, to as int).drop_first() =~= s@.subrange(a + 1, to as int));
        a += 1;
    }
    let mut b: usize = to;
    while a < b && padding(s[b - 1], commas)
        invariant
            a <= b <= to <= s.len(),
            trim_end(s@.subrange(a as int, to as int), commas) == trim_end(
                s@.subrange(a as int, b as int),
                commas,
            ),
        decreases b - a,
    {
        assert(s@.subrange(a as int, b as int).drop_last() =~= s@.subrange(a as int, b - 1));
        b -= 1;
    }
    copy_range(s, a, b)
}

/// `s` with every occurrence of `pat` replaced by `to`. The occurrences are
/// taken from the left and do not overlap. An empty `pat` occurs before every
/// character and at the end.
pub open spec fn replace_all(s: Seq<char>, pat: Seq<char>, to: Seq<char>) -> Seq<char>
    decreases s.len(),
{
    if pat.len() == 0 {
        if s.len() == 0 {
            to
        } else {
            to + seq![s[0]] + replace_all(s.drop_first(), pat, to)
        }
    } else if occurs_at(s, pat, 0) {
        to + replace_all(s.skip(pat.len() as int), pat, to)
    } else if s.len() == 0 {
        s
    } else {
        seq![s[0]] + replace_all(s.drop_first(), pat, to)
    }
}

/// `s` with every occurrence of `pat` replaced by `to`.
pub fn replace(s: &Vec<char>, pat: &Vec<char>, to: &Vec<char>) -> (r: Vec<char>)
    ensures
        r@ == replace_all(s@, pat@, to@),
{
    let mut out: Vec<char> = Vec::new();
    let mut i: usize = 0;
    proof {
        assert(s@.skip(0) =~= s@);
        assert(out@ + replace_all(s@, pat@, to@) =~= replace_all(s@, pat@, to@));
    }
    while i < s.len()
        invariant
            i <= s.len(),
            out@ + replace_all(s@.skip(i as int), pat@, to@) == replace_all(s@, pat@, to@),
        decreases s.len() - i,
    {
        let ghost rest = s@.skip(i as int);
        let ghost before = out@;
        if pat.len() == 0 {
            append_range(&mut out, to, 0, to.len());
            out.push(s[i]);
            proof {
                assert(rest.drop_first() =~= s@.skip(i + 1));
                assert(to@.subrange(0, to.len() as int) =~= to@);
                assert(out@ =~= before + (to@ + seq![rest[0]]));
                assert(out@ + replace_all(s@.skip(i + 1), pat@, to@) =~= before + replace_all(
                    rest,
                    pat@,
                    to@,
                ));
            }
            i += 1;
        } else if matches_at(s, pat, i) {
            append_range(&mut out, to, 0, to.len());
            proof {
                assert(rest.subrange(0, pat.len() as int) =~= s@.subrange(
                    i as int,
                    i + pat.len(),
                ));
                assert(occurs_at(rest, pat@, 0));
                assert(rest.skip(pat.len() as int) =~= s@.skip(i + pat.len()));
                assert(to@.subrange(0, to.len() as int) =~= to@);
                assert(out@ + replace_all(s@.skip(i + pat.len()), pat@, to@) =~= before
                    + replace_all(rest, pat@, to@));
            }
            i += pat.len();
        } else {
            out.push(s[i]);
            proof {
                if i + pat.len() <= s.len() {
                    assert(rest.subrange(0, pat.len() as int) =~= s@.subrange(
                        i as int,
                        i + pat.len(),
                    ));
                }
                assert(!occurs_at(rest, pat@, 0));
                assert(rest.drop_first() =~= s@.skip(i + 1));
                assert(out@ =~= before + seq![rest[0]]);
                assert(out@ + replace_all(s@.skip(i + 1), pat@, to@) =~= before + replace_all(
                    rest,
                    pat@,
                    to@,
                ));
            }
            i += 1;
        }
    }
    if pat.len() == 0 {
        append_range(&mut out, to, 0, to.len());
        proof {
            assert(to@.subrange(0, to.len() as int) =~= to@);
        }
    }
    proof {
        assert(s@.skip(s.len() as int).len() == 0);
    }
    out
}

/// `line` without the carriage return at its end, if it has one.
pub open spec fn without_cr(line: Seq<char>) -> Seq<char> {
    if line.len() > 0 && line.last() == '\r' {
        line.drop_last()
    } else {
        line
    }
}

/// The lines of `s`. A line ends with a newline, or with a carriage return
/// and a newline, which do not belong to it; the last line may end with the
/// text instead, and then keeps whatever it ends with. The empty text has no
/// line.
pub open spec fn lines(s: Seq<char>) -> Seq<Seq<char>>
    decreases s.len(),
{
    let k = offset_of(s, '\n');
    if s.len() == 0 {
        Seq::empty()
    } else if k >= s.len() {
        seq![s]
    } else {
        seq![without_cr(s.take(k as int))] + lines(s.skip(k as int + 1))
    }
}

/// The character sequences that the vectors of `rows` hold.
pub open spec fn rows_of(rows: Seq<Vec<char>>) -> Seq<Seq<char>> {
    rows.map_values(|row: Vec<char>| row@)
}

/// The lines of `s`.
pub fn split_lines(s: &Vec<char>) -> (r: Vec<Vec<char>>)
    ensures
        rows_of(r@) == lines(s@),
{
    let mut out: Vec<Vec<char>> = Vec::new();
    let mut start: usize = 0;
    proof {
        assert(s@.skip(0) =~= s@);
        assert(rows_of(out@) + lines(s@) =~= lines(s@));
    }
    while start < s.len()
        invariant
            start <= s.len(),
            rows_of(out@) + lines(s@.skip(start as int)) == lines(s@),
        decreases s.len() - start,
    {
        let ghost rest = s@.skip(start as int);
        let ghost before = rows_of(out@);
        let k: usize = find_char_from(s, '\n', start);
        if k == s.len() {
            let line = copy_range(s, start, k);
            out.push(line);
            proof {
                assert(s@.subrange(start as int, k as int) =~= rest);
                assert(rows_of(out@) =~= before + seq![rest]);
                assert(lines(s@.skip(k as int)) =~= Seq::<Seq<char>>::empty());
            }
            start = k;
        } else {
            let end: usize = if k > start && s[k - 1] == '\r' {
                k - 1
            } else {
                k
            };
            let line = copy_range(s, start, end);
            out.push(line);
            proof {
                let head = rest.take(k - start);
                assert(head =~= s@.subrange(start as int, k as int));
                assert(without_cr(head) =~= s@.subrange(start as int, end as int));
                assert(rest.skip(k - start + 1) =~= s@.skip(k + 1));
                assert(rows_of(out@) =~= before + seq![without_cr(head)]);
            }
            start = k + 1;
        }
    }
    proof {
        assert(s@.skip(s.len() as int).len() == 0);
    }
    out
}

/// Whether `c` is one of the ten decimal digits.
pub open spec fn is_digit(c: char) -> bool {
    '0' <= c && c <= '9'
}

/// The number that the decimal digit `c` stands for.
pub open spec fn digit_value(c: char) -> nat {
    (c as u32 - '0' as u32) as nat
}

/// Whether `s` is a decimal numeral: one digit or more, and nothing else.
pub open spec fn is_decimal(s: Seq<char>) -> bool {
    s.len() > 0 && forall|i: int| 0 <= i < s.len() ==> is_digit(s[i])
}

/// The number that the decimal numeral `s` stands for.
pub open spec fn decimal_value(s: Seq<char>) -> nat
    decreases s.len(),
{
    if s.len() == 0 {
        0
    } else {
        decimal_value(s.drop_last()) * 10 + digit_value(s.last())
    }
}

/// The number that `s` stands for, where `s` is a decimal numeral whose value
/// fits a `usize`.
pub open spec fn decimal_usize(s: Seq<char>) -> Option<usize> {
    if is_decimal(s) && decimal_value(s) <= usize::MAX {
        Some(decimal_value(s) as usize)
    } else {
        None
    }
}

/// A longer numeral of the same start stands for no smaller a number.
pub proof fn lemma_decimal_value_grows(s: Seq<char>, i: int)
    requires
        0 <= i <= s.len(),
    ensures
        decimal_value(s.take(i)) <= decimal_value(s),
    decreases s.len() - i,
{
    if i < s.len() {
        lemma_decimal_value_grows(s, i + 1);
        assert(s.take(i + 1).drop_last() =~= s.take(i));
    } else {
        assert(s.take(i) =~= s);
    }
}

/// Reads `s` as a decimal numeral.
pub fn parse_decimal(s: &Vec<char>) -> (r: Option<usize>)
    ensures
        r == decimal_usize(s@),
{
    if s.len() == 0 {
        return None;
    }
    let mut n: usize = 0;
    let mut i: usize = 0;
    while i < s.len()
        invariant
            i <= s.len(),
            forall|j: int| 0 <= j < i ==> is_digit(s@[j]),
            n == decimal_value(s@.take(i as int)),
        decreases s.len() - i,
    {
        let c: char = s[i];
        if !('0' <= c && c <= '9') {
            return None;
        }
        let d: usize = (c as u32 - '0' as u32) as usize;
        proof {
            assert(s@.take(i + 1).drop_last() =~= s@.take(i as int));
            lemma_decimal_value_grows(s@, i + 1);
        }
        if n > (usize::MAX - d) / 10 {
            return None;
        }
        n = n * 10 + d;
        i += 1;
    }
    proof {
        assert(s@.take(s.len() as int) =~= s@);
    }
    Some(n)
}

/// The offsets, from `from` on, at which `pat` stands in `s`: taken from the
/// left, each behind the end of the one before. An empty `pat` has none.
pub open spec fn occurrences(s: Seq<char>, pat: Seq<char>, from: int) -> Seq<int>
    decreases s.len() - from,
{
    if pat.len() == 0 || from < 0 || from + pat.len() > s.len() {
        Seq::empty()
    } else if occurs_at(s, pat, from) {
        seq![from] + occurrences(s, pat, from + pat.len())
    } else {
        occurrences(s, pat, from + 1)
    }
}

/// The offsets of `v` as unbounded numbers.
pub open spec fn offsets_of(v: Seq<usize>) -> Seq<int> {
    v.map_values(|x: usize| x as int)
}

/// The offsets at which `pat` stands in `s`, in ascending order; each leaves
/// room for `pat`, and the next one lies behind it.
pub fn find_all(s: &Vec<char>, pat: &Vec<char>) -> (r: Vec<usize>)
    ensures
        offsets_of(r@) == occurrences(s@, pat@, 0),
        forall|i: int| 0 <= i < r.len() ==> r[i] + pat.len() <= s.len(),
        forall|i: int, j: int| 0 <= i < j < r.len() ==> r[i] + pat.len() <= r[j],
{
    let mut out: Vec<usize> = Vec::new();
    if pat.len() == 0 || pat.len() > s.len() {
        assert(offsets_of(out@) =~= occurrences(s@, pat@, 0));
        return out;
    }
    let last: usize = s.len() - pat.len();
    let mut i: usize = 0;
    proof {
        assert(offsets_of(out@) + occurrences(s@, pat@, 0) =~= occurrences(s@, pat@, 0));
    }
    while i <= last
        invariant
            0 < pat.len() <= s.len(),
            last == s.len() - pat.len(),
            offsets_of(out@) + occurrences(s@, pat@, i as int) == occurrences(s@, pat@, 0),
            forall|k: int| 0 <= k < out.len() ==> out[k] + pat.len() <= i,
            forall|k: int, j: int| 0 <= k < j < out.len() ==> out[k] + pat.len() <= out[j],
            i <= s.len(),
        decreases s.len() - i,
    {
        let ghost before = offsets_of(out@);
        if matches_at(s, pat, i) {
            out.push(i);
            proof {
                assert(offsets_of(out@) =~= before + seq![i as int]);
                assert(offsets_of(out@) + occurrences(s@, pat@, i + pat.len()) =~= before
                    + occurrences(s@, pat@, i as int));
            }
            i += pat.len();
        } else {
            i += 1;
        }
    }
    proof {
        assert(offsets_of(out@) + occurrences(s@, pat@, i as int) =~= offsets_of(out@));
    }
    out
}

} // verus!
