//! The compiled regular expression and the calls into the `regex` crate.
//! No verified code outside this module can take a `Matcher` apart or build
//! one: its fields are private here, and the only function that builds one
//! is `compile_matcher`.
use vstd::prelude::*;
use crate::matcher::{regex_compiles, regex_is_match, regex_replace_all, InvalidPattern};

verus! {

#[verifier::external_type_specification]
#[verifier::external_body]
pub struct ExRegex(regex::Regex);

/// A compiled regular expression together with the pattern it was compiled
/// from. The fields are private: the only way to make one is
/// `compile_matcher`, which compiles `pattern` into `re`.
pub struct Matcher {
    re: regex::Regex,
    pattern: String,
}

impl View for Matcher {
    type V = Seq<char>;

    /// A matcher stands for the pattern it was compiled from.
    closed spec fn view(&self) -> Seq<char> {
        self.pattern@
    }
}

/// Calls `regex::Regex::new` on `pattern` and, when it succeeds, keeps the
/// regex it returns together with `pattern`. Claimed: it succeeds exactly on
/// the patterns named by `regex_compiles`, a function of the pattern alone,
/// and the matcher stands for `pattern`, the text its regex was compiled
/// from. This is the only place where a `Matcher` is built.
#[verifier::external_body]
pub(crate) fn compile_matcher(pattern: &str) -> (r: Result<Matcher, InvalidPattern>)
    ensures
        r is Ok == regex_compiles(pattern@),
        r matches Ok(m) ==> m@ == pattern@,
{
    match regex::Regex::new(pattern) {
        Ok(re) => Ok(Matcher { re, pattern: pattern.to_string() }),
        Err(_) => Err(InvalidPattern),
    }
}

/// Calls `regex::Regex::is_match` on the regex that `m` holds. Claimed: the
/// answer is `regex_is_match` of the pattern `m` was compiled from and of
/// `haystack`.
#[verifier::external_body]
pub(crate) fn regex_find(m: &Matcher, haystack: &str) -> (r: bool)
    ensures
        r == regex_is_match(m@, haystack@),
{
    m.re.is_match(haystack)
}

/// Calls `regex::Regex::replace_all` on the regex that `m` holds, with `rep`
/// as the replacement, and turns the result into a `String`. Claimed: the
/// result is `regex_replace_all` of the pattern, `haystack` and `rep`, and,
/// as the crate documents, `haystack` itself when the regex does not match
/// it.
#[verifier::external_body]
pub(crate) fn regex_replace(m: &Matcher, haystack: &str, rep: &str) -> (r: String)
    ensures
        r@ == regex_replace_all(m@, haystack@, rep@),
        !regex_is_match(m@, haystack@) ==> r@ == haystack@,
{
    m.re.replace_all(haystack, rep).to_string()
}

impl Matcher {
    /// The pattern this matcher was compiled from.
    pub fn pattern(&self) -> (r: &str)
        ensures
            r@ == self@,
    {
        self.pattern.as_str()
    }
}

} // verus!
