//! One line of input together with what the search has decided about it.
use vstd::prelude::*;

verus! {

/// What a `OneLine` holds: its text, whether it is to be printed, whether it
/// matched the pattern, and its line number.
pub struct LineView {
    pub text: Seq<char>,
    pub prints: bool,
    pub matches: bool,
    pub lnum: i32,
}

/// A line of text, whether it will be printed, whether it matched, and its
/// line number.
#[derive(Clone, Debug)]
pub struct OneLine(pub String, bool, bool, i32);

impl View for OneLine {
    type V = LineView;

    closed spec fn view(&self) -> LineView {
        LineView { text: self.0@, prints: self.1, matches: self.2, lnum: self.3 }
    }
}

impl OneLine {
    /// A line with the given text and flags, numbered 0.
    pub fn new(line: String, prints: bool, matches: bool) -> (r: Self)
        ensures
            r@ == (LineView { text: line@, prints, matches, lnum: 0 }),
    {
        OneLine(line, prints, matches, 0)
    }

    /// A line with the given text, flags and line number.
    pub fn with_lnum(line: String, prints: bool, matches: bool, linenum: i32) -> (r: Self)
        ensures
            r@ == (LineView { text: line@, prints, matches, lnum: linenum }),
    {
        OneLine(line, prints, matches, linenum)
    }

    /// Whether the line is to be printed.
    pub fn prints(&self) -> (r: bool)
        ensures
            r == self@.prints,
    {
        self.1
    }

    /// Whether the line matched the pattern.
    pub fn matches(&self) -> (r: bool)
        ensures
            r == self@.matches,
    {
        self.2
    }

    /// Marks the line to be printed; a line already marked stays marked.
    pub fn toggle_prints(&mut self)
        ensures
            final(self)@ == (LineView { prints: true, ..old(self)@ }),
    {
        if !self.prints() {
            self.1 = true
        }
    }

    /// The line number.
    pub fn lnum(&self) -> (r: i32)
        ensures
            r == self@.lnum,
    {
        self.3
    }

    /// The text of the line.
    pub fn text(&self) -> (r: &String)
        ensures
            r@ == self@.text,
    {
        &self.0
    }

    /// The text of the line, as a new string.
    pub fn to_string(&self) -> (r: String)
        ensures
            r@ == self@.text,
    {
        self.0.clone()
    }

    /// The text of the line, giving up the rest.
    pub fn into_text(self) -> (r: String)
        ensures
            r@ == self@.text,
    {
        self.0
    }
}

impl Default for OneLine {
    fn default() -> (r: Self)
        ensures
            r@ == (LineView { text: Seq::<char>::empty(), prints: false, matches: false, lnum: 0 }),
    {
        OneLine::with_lnum(String::new(), false, false, 0)
    }
}

/// Splits off the first line of `mvec`: it comes back with the lines after it,
/// or `None` with the empty vector when there is none.
pub fn popfront(mvec: Vec<OneLine>) -> (r: (Option<OneLine>, Vec<OneLine>))
    ensures
        mvec@.len() == 0 ==> r.0 is None && r.1@.len() == 0,
        mvec@.len() > 0 ==> r.0 == Some(mvec@[0]) && r.1@ == mvec@.drop_first(),
{
    let mut rest = mvec;
    if rest.len() == 0 {
        (None, rest)
    } else {
        let first = rest.remove(0);
        assert(rest@ =~= mvec@.drop_first());
        (Some(first), rest)
    }
}

} // verus!
