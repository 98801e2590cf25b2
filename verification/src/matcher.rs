//! Regular expressions, through the `regex` crate.
//!
//! What a regular expression matches is left to the `regex` crate: the
//! functions below name its results and tie them to the pattern a `Matcher`
//! was compiled from and to the text it is applied to.
use vstd::prelude::*;

mod compiled;

pub use compiled::Matcher;
use compiled::{compile_matcher, regex_find, regex_replace};

verus! {

/// Whether the `regex` crate accepts `pattern` as a regular expression.
pub uninterp spec fn regex_compiles(pattern: Seq<char>) -> bool;

/// Whether the regular expression `pattern` matches somewhere in `haystack`.
pub uninterp spec fn regex_is_match(pattern: Seq<char>, haystack: Seq<char>) -> bool;

/// `haystack` with every non-overlapping match of `pattern` replaced by
/// `rep`, where `$0` in `rep` stands for the text matched.
pub uninterp spec fn regex_replace_all(
    pattern: Seq<char>,
    haystack: Seq<char>,
    rep: Seq<char>,
) -> Seq<char>;

/// The pattern was not accepted as a regular expression.
#[derive(Debug, PartialEq, Eq)]
pub struct InvalidPattern;

impl Matcher {
    /// Compiles `pattern`; fails exactly when the `regex` crate refuses it.
    pub fn new(pattern: &str) -> (r: Result<Matcher, InvalidPattern>)
        ensures
            r is Ok == regex_compiles(pattern@),
            r matches Ok(m) ==> m@ == pattern@,
    {
        compile_matcher(pattern)
    }

    /// Whether the regular expression matches somewhere in `haystack`.
    pub fn is_match(&self, haystack: &str) -> (r: bool)
        ensures
            r == regex_is_match(self@, haystack@),
    {
        regex_find(self, haystack)
    }

    /// `haystack` with every match replaced by `rep` (`$0` in `rep` stands
    /// for the matched text).
    pub fn replace_all(&self, haystack: &str, rep: &str) -> (r: String)
        ensures
            r@ == regex_replace_all(self@, haystack@, rep@),
            !regex_is_match(self@, haystack@) ==> r@ == haystack@,
    {
        regex_replace(self, haystack, rep)
    }
}

} // verus!
