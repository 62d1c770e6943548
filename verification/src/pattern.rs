//! Regular expressions, which the `regex` crate matches.

use vstd::prelude::*;

verus! {

#[verifier::external_type_specification]
#[verifier::external_body]
pub struct ExRegexError(regex::Error);

/// Whether `regex::Regex::new` compiles `pattern`.
pub uninterp spec fn pattern_compiles(pattern: Seq<char>) -> bool;

/// The capture groups of the leftmost match of `pattern` in `text`, as
/// `regex::Regex::captures_iter` yields them first: the whole match at offset
/// 0, then the groups in the order of their opening brackets, each with the
/// text it matched, or `None` where it took no part in the match. `None`
/// where `pattern` matches nowhere in `text`.
pub uninterp spec fn first_captures(pattern: Seq<char>, text: Seq<char>) -> Option<
    Seq<Option<Seq<char>>>,
>;

/// The texts that the groups of `groups` hold.
pub open spec fn groups_of(groups: Seq<Option<String>>) -> Seq<Option<Seq<char>>> {
    groups.map_values(
        |g: Option<String>|
            match g {
                Some(s) => Some(s@),
                None => None,
            },
    )
}

/// The texts that the groups of a match hold, if there is a match.
pub open spec fn captures_view(found: Option<Vec<Option<String>>>) -> Option<
    Seq<Option<Seq<char>>>,
> {
    match found {
        Some(groups) => Some(groups_of(groups@)),
        None => None,
    }
}

/// Compiles `pattern` with `regex::Regex::new` and asks
/// `regex::Regex::captures_iter` for its first match in `text`.
///
/// Not proved: that the call fails exactly on the patterns that the crate
/// does not compile, and that it otherwise hands back the groups of the
/// leftmost match, which `first_captures` names. Both depend on `pattern` and
/// `text` alone.
#[verifier::external_body]
pub(crate) fn captures_in(pattern: &str, text: &str) -> (r: Result<
    Option<Vec<Option<String>>>,
    regex::Error,
>)
    ensures
        r is Ok <==> pattern_compiles(pattern@),
        r matches Ok(found) ==> captures_view(found) == first_captures(pattern@, text@),
{
    let re = regex::Regex::new(pattern)?;
    let first = re.captures_iter(text).next();
    Ok(first.map(|c| c.iter().map(|g| g.map(|m| m.as_str().to_string())).collect()))
}

} // verus!
