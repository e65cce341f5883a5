//! Regular expressions.

use vstd::prelude::*;

use crate::model::text_of;

verus! {

/// The texts of the capture groups at the leftmost match of `pattern` in `text`,
/// the whole match first; `None` where nothing matches.
pub uninterp spec fn regex_groups(pattern: Seq<char>, text: Seq<char>) -> Option<
    Seq<Option<Seq<char>>>,
>;

/// `text` with every match of `pattern` replaced.
pub uninterp spec fn regex_replaced(
    pattern: Seq<char>,
    text: Seq<char>,
    replacement: Seq<char>,
) -> Seq<char>;

/// The characters of captured texts.
pub open spec fn groups_view(groups: Option<Vec<Option<String>>>) -> Option<
    Seq<Option<Seq<char>>>,
> {
    match groups {
        Some(v) => Some(Seq::new(v@.len(), |i: int| text_of(v@[i]))),
        None => None,
    }
}

/// The text of group `i`, where it took part in the match.
pub open spec fn group_at(groups: Seq<Option<Seq<char>>>, i: int) -> Option<Seq<char>> {
    if 0 <= i < groups.len() {
        groups[i]
    } else {
        None
    }
}

/// The text of group `i`, where it took part in the match.
pub fn group(groups: &Vec<Option<String>>, i: usize) -> (r: Option<&String>)
    ensures
        match r {
            Some(s) => group_at(groups_view(Some(*groups))->0, i as int) == Some(s@),
            None => group_at(groups_view(Some(*groups))->0, i as int) is None,
        },
{
    if i < groups.len() {
        assert((groups_view(Some(*groups))->0)[i as int] == text_of(groups@[i as int]));
        match &groups[i] {
            Some(s) => Some(s),
            None => None,
        }
    } else {
        None
    }
}

/// `regex::Regex::captures`: the captured groups of the leftmost match. They
/// depend on the pattern and the text alone; which text they are is left to the
/// syntax and semantics of the regex crate. A pattern that is not a regular
/// expression matches nothing.
#[verifier::external_body]
pub(crate) fn captures(pattern: &str, text: &str) -> (r: Option<Vec<Option<String>>>)
    ensures
        groups_view(r) == regex_groups(pattern@, text@),
{
    let found = regex::Regex::new(pattern).ok()?;
    let groups = found.captures(text)?;
    Some(groups.iter().map(|g| g.map(|m| m.as_str().to_string())).collect())
}

/// `regex::Regex::replace_all`: the text with every match replaced. It depends on the
/// pattern, the text and the replacement alone, and a text in which nothing matches
/// stays as it is. A pattern that is not a regular expression matches nothing.
#[verifier::external_body]
pub(crate) fn replace_all(pattern: &str, text: &str, replacement: &str) -> (r: String)
    ensures
        r@ == regex_replaced(pattern@, text@, replacement@),
        regex_groups(pattern@, text@) is None ==> r@ == text@,
{
    match regex::Regex::new(pattern) {
        Ok(found) => found.replace_all(text, replacement).into_owned(),
        Err(_) => text.to_string(),
    }
}

} // verus!
