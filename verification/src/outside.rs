//! The calls this library makes into code that is not verified here.
//!
//! Every function in this module has a contract that is believed, not proved.

use vstd::prelude::*;

verus! {

/// `String::push` from the standard library: appends one character to the end
/// of the string and changes nothing else.
#[verifier::external_body]
pub(crate) fn push_char(s: &mut String, c: char)
    ensures
        final(s)@ == old(s)@.push(c),
{
    s.push(c)
}

/// What `regex::Regex::new` and `Regex::is_match` give for a pattern and a
/// text: `None` where the pattern does not compile, otherwise whether the
/// compiled pattern matches somewhere in the text.
pub uninterp spec fn regex_verdict(pattern: Seq<char>, text: Seq<char>) -> Option<bool>;

/// Compiles `pattern` with `regex::Regex::new` and asks `Regex::is_match`
/// whether it matches `text`. Both depend on the pattern and the text alone,
/// so the answer has a name; nothing else is claimed of it.
#[verifier::external_body]
pub(crate) fn regex_is_match(pattern: &str, text: &str) -> (r: Option<bool>)
    ensures
        r == regex_verdict(pattern@, text@),
{
    match regex::Regex::new(pattern) {
        Ok(re) => Some(re.is_match(text)),
        Err(_) => None,
    }
}

/// What `titlecase::titlecase` returns for a text.
pub uninterp spec fn titlecase_of(text: Seq<char>) -> Seq<char>;

/// `titlecase::titlecase`: the text in title case. The function computes
/// from its argument alone, so the result has a name; nothing else is
/// claimed of it.
#[verifier::external_body]
pub(crate) fn title_case(text: &str) -> (r: String)
    ensures
        r@ == titlecase_of(text@),
{
    titlecase::titlecase(text)
}

/// What `str::to_lowercase` of the standard library returns for a text.
pub uninterp spec fn lowercase_of(text: Seq<char>) -> Seq<char>;

/// `str::to_lowercase` from the standard library: the text with every
/// character in lower case, by the rules of Unicode.
#[verifier::external_body]
pub(crate) fn lower_case(text: &str) -> (r: String)
    ensures
        r@ == lowercase_of(text@),
{
    text.to_lowercase()
}

/// What `char::to_uppercase` of the standard library yields for a character:
/// one character or several.
pub uninterp spec fn uppercase_of(c: char) -> Seq<char>;

/// `char::to_uppercase` from the standard library: the upper case of one
/// character, by the rules of Unicode, as a string.
#[verifier::external_body]
pub(crate) fn upper_case_char(c: char) -> (r: String)
    ensures
        r@ == uppercase_of(c),
{
    c.to_uppercase().collect()
}

/// `rand::Rng::gen_range` on `rand::thread_rng()`: a number drawn from
/// `lower` up to, not including, `upper`. The call panics where the range is
/// empty, so that is ruled out. Two calls may differ; only the bounds hold of
/// every outcome.
#[verifier::external_body]
pub(crate) fn random_between(lower: usize, upper: usize) -> (r: usize)
    requires
        lower < upper,
    ensures
        lower <= r < upper,
{
    rand::Rng::gen_range(&mut rand::thread_rng(), lower, upper)
}

} // verus!
