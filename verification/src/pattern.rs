//! Regular expressions, through the `regex` crate: whether one matches a
//! text, and the texts of its matches.

use vstd::prelude::*;

verus! {

/// What `regex::Regex::new(pattern)` and then `is_match(text)` answer;
/// `None` when the pattern does not compile.
pub uninterp spec fn regex_matches(pattern: Seq<char>, text: Seq<char>) -> Option<bool>;

/// `regex::Regex::new` and `Regex::is_match`. Claims: the answer is the
/// named `regex_matches` of the pattern and the text, nothing more.
#[verifier::external_body]
pub(crate) fn is_match(pattern: &str, text: &str) -> (r: Option<bool>)
    ensures
        r == regex_matches(pattern@, text@),
{
    match regex::Regex::new(pattern) {
        Ok(re) => Some(re.is_match(text)),
        Err(_) => None,
    }
}

/// What `regex::Regex::new(pattern)` and then `find_iter(text)` give: the
/// texts of the successive matches; `None` when the pattern does not
/// compile.
pub uninterp spec fn regex_found(pattern: Seq<char>, text: Seq<char>) -> Option<Seq<Seq<char>>>;

/// `regex::Regex::new` and `Regex::find_iter`, each match taken as its
/// text. Claims: the texts are the named `regex_found` of the pattern and
/// the text, nothing more.
#[verifier::external_body]
pub(crate) fn find_all(pattern: &str, text: &str) -> (r: Option<Vec<String>>)
    ensures
        match r {
            Some(v) => regex_found(pattern@, text@) == Some(v.deep_view()),
            None => regex_found(pattern@, text@) is None,
        },
{
    match regex::Regex::new(pattern) {
        Ok(re) => Some(re.find_iter(text).map(|m| m.as_str().to_string()).collect()),
        Err(_) => None,
    }
}

} // verus!
