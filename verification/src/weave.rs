//! Weaving: the advice of a pointcut, expanded for each match, takes the
//! place of the matched range of a file.

use crate::config::PointCut;
use crate::error::WeaveError;
use crate::position::{
    lemma_resolve_in_order, lemma_resolve_of_prefix, resolve, resolve_chars, resolves_at,
};
use crate::record::{Arg, Found, FoundView, MatchSet};
use crate::text::{append_range, chars_of, replace, replace_all, string_of};
use vstd::prelude::*;

verus! {

/// The character of a template that stands for the matched text.
pub const PLACEHOLDER: char = '$';

/// `template` with every captured name replaced by the text captured under
/// it, one name after the other in the order of `args`. A later name is
/// looked for in what the earlier replacements have left.
pub open spec fn apply_args(template: Seq<char>, args: Seq<Arg>) -> Seq<char>
    decreases args.len(),
{
    if args.len() == 0 {
        template
    } else {
        apply_args(replace_all(template, args[0].0, args[0].1), args.drop_first())
    }
}

/// The advice for one match: the template with the captured names replaced
/// first, and then every placeholder replaced by the matched text. A
/// placeholder that a captured text brought in is replaced too; the matched
/// text comes last and is not looked through again.
pub open spec fn expand(template: Seq<char>, f: FoundView) -> Seq<char> {
    replace_all(apply_args(template, f.args), seq![PLACEHOLDER], f.src)
}

/// `text` with the range from `from` up to, not including, `to` replaced by
/// `with`.
pub open spec fn splice(text: Seq<char>, from: int, to: int, with: Seq<char>) -> Seq<char> {
    text.take(from) + with + text.skip(to)
}

/// `text` with the range of the match `f` replaced by the advice expanded for
/// it. Both ends of the match are resolved in `text`; where one of them is at
/// no character of it, the start before the end, that position is reported.
pub open spec fn weave_one(text: Seq<char>, f: FoundView, advice: Seq<char>) -> Result<
    Seq<char>,
    WeaveError,
> {
    match (resolve(text, f.start), resolve(text, f.end)) {
        (Some(from), Some(to)) => Ok(splice(text, from, to, expand(advice, f))),
        (None, _) => Err(WeaveError::PositionNotFound(f.start)),
        (_, None) => Err(WeaveError::PositionNotFound(f.end)),
    }
}

/// `text` with the matches of `founds` woven one after the other, each into
/// what the ones before it have left; the first failure ends it.
pub open spec fn weave(text: Seq<char>, founds: Seq<FoundView>, advice: Seq<char>) -> Result<
    Seq<char>,
    WeaveError,
>
    decreases founds.len(),
{
    if founds.len() == 0 {
        Ok(text)
    } else {
        match weave_one(text, founds[0], advice) {
            Ok(woven) => weave(woven, founds.drop_first(), advice),
            Err(e) => Err(e),
        }
    }
}

/// The advice for one match, from the characters of the template.
fn expand_chars(template: &Vec<char>, found: &Found) -> (r: Vec<char>)
    ensures
        r@ == expand(template@, found@),
{
    let args = found.args();
    let mut cur: Vec<char> = Vec::new();
    append_range(&mut cur, template, 0, template.len());
    let mut i: usize = 0;
    proof {
        assert(template@.subrange(0, template.len() as int) =~= template@);
        assert(found@.args.skip(0) =~= found@.args);
    }
    while i < args.len()
        invariant
            i <= args.len(),
            crate::record::args_of(args@) == found@.args,
            apply_args(cur@, found@.args.skip(i as int)) == apply_args(template@, found@.args),
        decreases args.len() - i,
    {
        let ghost rest = found@.args.skip(i as int);
        let key = chars_of(args[i].0.as_str());
        let value = chars_of(args[i].1.as_str());
        proof {
            assert(rest[0] == (key@, value@));
            assert(rest.drop_first() =~= found@.args.skip(i + 1));
        }
        cur = replace(&cur, &key, &value);
        i += 1;
    }
    let mut placeholder: Vec<char> = Vec::new();
    placeholder.push(PLACEHOLDER);
    proof {
        assert(placeholder@ =~= seq![PLACEHOLDER]);
    }
    replace(&cur, &placeholder, &chars_of(found.src()))
}

/// The advice for one match: `template` with the captured names of `found`
/// replaced by what was captured under them, and then every placeholder
/// replaced by the matched text.
pub fn expand_advice(template: &str, found: &Found) -> (r: String)
    ensures
        r@ == expand(template@, found@),
{
    string_of(&expand_chars(&chars_of(template), found))
}

/// Weaves the advice of `pc` into `src` at every match of `founds`, the last
/// place of the file first, so that the places still to come are where the
/// report saw them. A position at which no character stands ends the weaving
/// and is reported.
pub fn insert_advice(src: String, founds: &MatchSet, pc: &PointCut) -> (r: Result<
    String,
    WeaveError,
>)
    ensures
        match r {
            Ok(woven) => weave(src@, founds@, pc.advice@) == Ok::<Seq<char>, WeaveError>(woven@),
            Err(e) => weave(src@, founds@, pc.advice@) == Err::<Seq<char>, WeaveError>(e),
        },
        founds@.len() == 0 ==> r == Ok::<String, WeaveError>(src),
{
    if founds.is_empty() {
        return Ok(src);
    }
    let records = founds.records();
    let advice = chars_of(pc.advice.as_str());
    let mut text = chars_of(src.as_str());
    let mut i: usize = 0;
    proof {
        assert(founds@.skip(0) =~= founds@);
    }
    while i < records.len()
        invariant
            i <= records.len(),
            crate::record::founds_of(records@) == founds@,
            advice@ == pc.advice@,
            weave(text@, founds@.skip(i as int), advice@) == weave(src@, founds@, advice@),
        decreases records.len() - i,
    {
        let ghost rest = founds@.skip(i as int);
        let found = &records[i];
        proof {
            assert(rest[0] == found@);
            assert(rest.drop_first() =~= founds@.skip(i + 1));
        }
        let from = match resolve_chars(&text, found.start()) {
            Some(k) => k,
            None => {
                return Err(WeaveError::PositionNotFound(found.start()));
            },
        };
        let to = match resolve_chars(&text, found.end()) {
            Some(k) => k,
            None => {
                return Err(WeaveError::PositionNotFound(found.end()));
            },
        };
        let expansion = expand_chars(&advice, found);
        let mut woven: Vec<char> = Vec::new();
        append_range(&mut woven, &text, 0, from);
        append_range(&mut woven, &expansion, 0, expansion.len());
        append_range(&mut woven, &text, to, text.len());
        proof {
            assert(expansion@.subrange(0, expansion.len() as int) =~= expansion@);
            assert(woven@ =~= splice(text@, from as int, to as int, expansion@));
        }
        text = woven;
        i += 1;
    }
    Ok(string_of(&text))
}

/// The matches lie apart, in the order in which they are woven: none ends
/// before it starts, and each ends where those woven before it start, or
/// earlier.
pub open spec fn apart(founds: Seq<FoundView>) -> bool {
    &&& forall|i: int| 0 <= i < founds.len() ==> founds[i].start@.not_after(founds[i].end@)
    &&& forall|i: int, j: int|
        0 <= i < j < founds.len() ==> founds[j].end@.not_after(founds[i].start@)
}

/// What holds of matches that lie apart holds of all but the first of them,
/// and the second ends where the first starts, or earlier.
proof fn lemma_apart_rest(text: Seq<char>, founds: Seq<FoundView>)
    requires
        founds.len() > 0,
        apart(founds),
        all_resolve(text, founds),
    ensures
        apart(founds.drop_first()),
        all_resolve(text, founds.drop_first()),
        0 <= resolve(text, founds[0].start)->0 <= resolve(text, founds[0].end)->0 < text.len(),
        resolves_at(text, founds[0].start, resolve(text, founds[0].start)->0),
        resolves_at(text, founds[0].end, resolve(text, founds[0].end)->0),
        founds.len() > 1 ==> resolve(text, founds[1].end)->0 <= resolve(text, founds[0].start)->0,
{
    let f = founds[0];
    let rest = founds.drop_first();
    let from = resolve(text, f.start)->0;
    let to = resolve(text, f.end)->0;
    assert(resolves_at(text, f.start, from));
    assert(resolves_at(text, f.end, to));
    lemma_resolve_in_order(text, f.start, f.end, from, to);
    assert forall|i: int| 0 <= i < rest.len() implies rest[i].start@.not_after(rest[i].end@) by {
        assert(rest[i] == founds[i + 1]);
    }
    assert forall|i: int, j: int| 0 <= i < j < rest.len() implies rest[j].end@.not_after(
        rest[i].start@,
    ) by {
        assert(rest[i] == founds[i + 1]);
        assert(rest[j] == founds[j + 1]);
    }
    assert forall|i: int| 0 <= i < rest.len() implies resolve(text, rest[i].start) is Some
        && resolve(text, rest[i].end) is Some by {
        assert(rest[i] == founds[i + 1]);
    }
    if founds.len() > 1 {
        let to1 = resolve(text, founds[1].end)->0;
        assert(resolves_at(text, founds[1].end, to1));
        lemma_resolve_in_order(text, founds[1].end, f.start, to1, from);
    }
}

/// Both ends of every match are at a character of `text`.
pub open spec fn all_resolve(text: Seq<char>, founds: Seq<FoundView>) -> bool {
    forall|i: int|
        0 <= i < founds.len() ==> resolve(text, founds[i].start) is Some && resolve(
            text,
            founds[i].end,
        ) is Some
}

/// The first `upto` characters of `text` with the range of every match
/// replaced by its advice, all ranges taken in `text` itself. The matches lie
/// apart within those characters.
pub open spec fn rewritten(
    text: Seq<char>,
    founds: Seq<FoundView>,
    advice: Seq<char>,
    upto: int,
) -> Seq<char>
    decreases founds.len(),
{
    if founds.len() == 0 {
        text.take(upto)
    } else {
        let from = resolve(text, founds[0].start)->0;
        let to = resolve(text, founds[0].end)->0;
        rewritten(text, founds.drop_first(), advice, from) + expand(advice, founds[0])
            + text.subrange(to, upto)
    }
}

/// Weaving matches that lie apart into a text `buf` that starts as `text`
/// does, up to an offset `k` which no match reaches beyond, rewrites that
/// start as if all ranges were replaced at once, and leaves the rest of `buf`
/// alone.
proof fn lemma_weave_in_prefix(
    text: Seq<char>,
    buf: Seq<char>,
    k: int,
    founds: Seq<FoundView>,
    advice: Seq<char>,
)
    requires
        apart(founds),
        all_resolve(text, founds),
        0 <= k <= text.len(),
        k <= buf.len(),
        buf.take(k) == text.take(k),
        founds.len() > 0 ==> resolve(text, founds[0].end)->0 <= k && resolve(
            text,
            founds[0].end,
        )->0 < buf.len(),
    ensures
        weave(buf, founds, advice) == Ok::<Seq<char>, WeaveError>(
            rewritten(text, founds, advice, k) + buf.skip(k),
        ),
    decreases founds.len(),
{
    if founds.len() == 0 {
        assert(buf =~= text.take(k) + buf.skip(k));
    } else {
        let f = founds[0];
        let rest = founds.drop_first();
        let from = resolve(text, f.start)->0;
        let to = resolve(text, f.end)->0;
        lemma_apart_rest(text, founds);
        lemma_resolve_of_prefix(text, buf, k, f.start, from);
        lemma_resolve_of_prefix(text, buf, k, f.end, to);
        let e = expand(advice, f);
        let next = splice(buf, from, to, e);
        assert(weave_one(buf, f, advice) == Ok::<Seq<char>, WeaveError>(next));
        assert(next.take(from) =~= text.take(from)) by {
            assert(buf.take(from) =~= buf.take(k).take(from));
            assert(text.take(from) =~= text.take(k).take(from));
        }
        if rest.len() > 0 {
            assert(rest[0] == founds[1]);
        }
        lemma_weave_in_prefix(text, next, from, rest, advice);
        assert(next.skip(from) =~= e + text.subrange(to, k) + buf.skip(k)) by {
            assert forall|j: int| to <= j < k implies buf[j] == text[j] by {
                assert(buf[j] == buf.take(k)[j]);
                assert(text[j] == text.take(k)[j]);
            }
        }
        assert(rewritten(text, rest, advice, from) + next.skip(from) =~= rewritten(
            text,
            founds,
            advice,
            k,
        ) + buf.skip(k));
    }
}

/// Weaving matches that lie apart, the last place of the text first,
/// succeeds where every position is at a character of the text, and gives
/// what replacing all the ranges at once in that text gives: no replacement
/// moves a place that is still to come.
pub proof fn lemma_weave_at_once(text: Seq<char>, founds: Seq<FoundView>, advice: Seq<char>)
    requires
        apart(founds),
        all_resolve(text, founds),
    ensures
        weave(text, founds, advice) == Ok::<Seq<char>, WeaveError>(
            rewritten(text, founds, advice, text.len() as int),
        ),
{
    if founds.len() > 0 {
        assert(resolves_at(text, founds[0].end, resolve(text, founds[0].end)->0));
    }
    assert(text.take(text.len() as int) =~= text);
    lemma_weave_in_prefix(text, text, text.len() as int, founds, advice);
    assert(text.skip(text.len() as int) =~= Seq::<char>::empty());
    assert(rewritten(text, founds, advice, text.len() as int) + Seq::<char>::empty()
        =~= rewritten(text, founds, advice, text.len() as int));
}

/// What is rewritten starts as the text does, up to the start of the match
/// that lies first in it.
proof fn lemma_rewritten_start(
    text: Seq<char>,
    founds: Seq<FoundView>,
    advice: Seq<char>,
    upto: int,
)
    requires
        founds.len() > 0,
        apart(founds),
        all_resolve(text, founds),
        resolve(text, founds[0].end)->0 <= upto <= text.len(),
    ensures
        0 <= resolve(text, founds.last().start)->0 <= resolve(text, founds[0].start)->0,
        resolve(text, founds.last().start)->0 <= rewritten(text, founds, advice, upto).len(),
        rewritten(text, founds, advice, upto).take(resolve(text, founds.last().start)->0)
            == text.take(resolve(text, founds.last().start)->0),
    decreases founds.len(),
{
    let f = founds[0];
    let rest = founds.drop_first();
    let from = resolve(text, f.start)->0;
    let first = resolve(text, founds.last().start)->0;
    lemma_apart_rest(text, founds);
    let head = rewritten(text, rest, advice, from);
    let whole = rewritten(text, founds, advice, upto);
    if rest.len() == 0 {
        assert(founds.last() == f);
        assert(head == text.take(from));
        assert(whole.take(from) =~= text.take(from));
    } else {
        assert(rest[0] == founds[1]);
        assert(rest.last() == founds.last());
        lemma_apart_rest(text, rest);
        lemma_rewritten_start(text, rest, advice, from);
        assert(first <= head.len());
        assert(whole.take(first) =~= head.take(first));
    }
}

/// Weaving matches that lie apart leaves alone what stands before the start
/// of the match that lies first in the text, and what stands from the end of
/// the match that lies last in it.
pub proof fn lemma_weave_keeps_outside(text: Seq<char>, founds: Seq<FoundView>, advice: Seq<char>)
    requires
        founds.len() > 0,
        apart(founds),
        all_resolve(text, founds),
    ensures
        weave(text, founds, advice) is Ok,
        ({
            let woven = weave(text, founds, advice)->Ok_0;
            let first = resolve(text, founds.last().start)->0;
            let last = resolve(text, founds[0].end)->0;
            &&& 0 <= first <= last < text.len()
            &&& first <= woven.len()
            &&& woven.take(first) == text.take(first)
            &&& text.len() - last <= woven.len()
            &&& woven.skip(woven.len() - (text.len() - last)) == text.skip(last)
        }),
{
    let n = text.len() as int;
    let woven = rewritten(text, founds, advice, n);
    let first = resolve(text, founds.last().start)->0;
    let last = resolve(text, founds[0].end)->0;
    lemma_weave_at_once(text, founds, advice);
    assert(resolves_at(text, founds[0].end, last));
    assert(resolves_at(text, founds[0].start, resolve(text, founds[0].start)->0));
    lemma_resolve_in_order(
        text,
        founds[0].start,
        founds[0].end,
        resolve(text, founds[0].start)->0,
        last,
    );
    lemma_rewritten_start(text, founds, advice, n);
    assert(text.subrange(last, n) =~= text.skip(last));
    assert(woven.skip(woven.len() - (n - last)) =~= text.skip(last));
}

/// Weaving once more takes the text that the weaving before it has left:
/// the positions of a match woven after a first set are resolved in what
/// that set has made of the text, whatever they were at in the text before.
pub proof fn lemma_weave_in_sequence(
    text: Seq<char>,
    first: Seq<FoundView>,
    advice: Seq<char>,
    second: Seq<FoundView>,
    next_advice: Seq<char>,
)
    requires
        weave(text, first, advice) is Ok,
        second.len() > 0,
    ensures
        ({
            let woven = weave(text, first, advice)->Ok_0;
            let f = second[0];
            weave(woven, second, next_advice) == match (
                resolve(woven, f.start),
                resolve(woven, f.end),
            ) {
                (Some(from), Some(to)) => weave(
                    splice(woven, from, to, expand(next_advice, f)),
                    second.drop_first(),
                    next_advice,
                ),
                (None, _) => Err(WeaveError::PositionNotFound(f.start)),
                (_, None) => Err(WeaveError::PositionNotFound(f.end)),
            }
        }),
{
}

/// Weaving the matches of `first` and then those of `second` with the same
/// advice is weaving them all in that order.
pub proof fn lemma_weave_concat(
    text: Seq<char>,
    first: Seq<FoundView>,
    second: Seq<FoundView>,
    advice: Seq<char>,
)
    ensures
        weave(text, first + second, advice) == match weave(text, first, advice) {
            Ok(woven) => weave(woven, second, advice),
            Err(e) => Err(e),
        },
    decreases first.len(),
{
    if first.len() == 0 {
        assert(first + second =~= second);
    } else {
        assert((first + second).drop_first() =~= first.drop_first() + second);
        assert((first + second)[0] == first[0]);
        match weave_one(text, first[0], advice) {
            Ok(woven) => {
                lemma_weave_concat(woven, first.drop_first(), second, advice);
            },
            Err(_) => {},
        }
    }
}

} // verus!
