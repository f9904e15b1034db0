//! The regular expressions that the importers look for.

use vstd::prelude::*;
use vstd::string::*;

verus! {

/// The text of a group of the first match of a pattern, as the `regex` crate
/// finds it; none where the pattern does not match, the group takes no part in
/// the match, or the pattern is not a regular expression.
pub uninterp spec fn regex_group(pattern: Seq<char>, text: Seq<char>, group: nat) -> Option<
    Seq<char>,
>;

/// `regex::Regex::new`, `Regex::captures` and `Captures::get`: the result is a
/// function of the pattern, the text and the group. What that function is stays
/// unsaid.
#[verifier::external_body]
pub(crate) fn find_group(pattern: &str, text: &str, group: usize) -> (r: Option<String>)
    ensures
        match r {
            Some(s) => regex_group(pattern@, text@, group as nat) == Some(s@),
            None => regex_group(pattern@, text@, group as nat) is None,
        },
{
    let captures = regex::Regex::new(pattern).ok()?.captures(text)?;
    captures.get(group).map(|m| m.as_str().to_owned())
}

} // verus!
