//! Searching a stream of lines with context lines before and after each
//! match, the way `grep -B`/`-A` prints them.
//!
//! `GrepState` takes the lines one at a time. It keeps the last `before + 1`
//! lines in a window, newest first; each new line may push the oldest one
//! out, and a line leaving the window is printed if it is near a match, or
//! turns into a separator `---` when it is the first line not printed after
//! printed ones. `finish` gives back what is still in the window and to be
//! printed.
use vstd::prelude::*;
use crate::manylines::{LineView, OneLine};
use crate::matcher::{regex_is_match, regex_replace_all, Matcher};
use crate::search::lines_matching;
use crate::text::{lines, str_eq, string_views};

verus! {

/// One item of output, as a specification sees it.
pub enum Shown {
    Line(Seq<char>),
    Separator,
}

/// One item of output: a line to print, or the separator between two groups
/// of printed lines.
#[derive(Debug, PartialEq, Eq)]
pub enum Popped {
    Line(String),
    Separator,
}

impl View for Popped {
    type V = Shown;

    open spec fn view(&self) -> Shown {
        match self {
            Popped::Line(s) => Shown::Line(s@),
            Popped::Separator => Shown::Separator,
        }
    }
}

/// The view of an optional output item.
pub open spec fn opt_view(r: Option<Popped>) -> Option<Shown> {
    match r {
        Some(p) => Some(p@),
        None => None,
    }
}

/// An optional output item as a sequence of zero or one items.
pub open spec fn opt_seq(r: Option<Shown>) -> Seq<Shown> {
    match r {
        Some(x) => seq![x],
        None => seq![],
    }
}

/// Printed lines as output items.
pub open spec fn as_shown(ls: Seq<Seq<char>>) -> Seq<Shown> {
    ls.map_values(|t: Seq<char>| Shown::Line(t))
}

/// Among the first `n` lines, some line `j` matched and line `i` lies within
/// `before` lines before it or `after` lines after it.
pub open spec fn near_match(ms: Seq<bool>, n: int, i: int, after: int, before: int) -> bool {
    exists|j: int| 0 <= j < n && #[trigger] ms[j] && j - before <= i && i <= j + after
}

/// Line `i` is printed: it lies within the context of some match.
pub open spec fn shown(ms: Seq<bool>, i: int, after: int, before: int) -> bool {
    near_match(ms, ms.len() as int, i, after, before)
}

/// What line `i` contributes to the output: the line itself when it is
/// printed; the separator when it is the first line not printed after a
/// printed one and at least `before + 1` lines follow it; nothing otherwise.
pub open spec fn output_at(
    ls: Seq<Seq<char>>,
    ms: Seq<bool>,
    after: int,
    before: int,
    i: int,
) -> Seq<Shown> {
    if shown(ms, i, after, before) {
        seq![Shown::Line(ls[i])]
    } else if 1 <= i && shown(ms, i - 1, after, before) && i + before + 2 <= ms.len() {
        seq![Shown::Separator]
    } else {
        seq![]
    }
}

/// What the first `k` lines contribute to the output.
pub open spec fn output_upto(
    ls: Seq<Seq<char>>,
    ms: Seq<bool>,
    after: int,
    before: int,
    k: int,
) -> Seq<Shown>
    decreases k,
{
    if k <= 0 {
        seq![]
    } else {
        output_upto(ls, ms, after, before, k - 1) + output_at(ls, ms, after, before, k - 1)
    }
}

/// The whole output of a search over the lines `ls`, where `ms[i]` tells
/// whether line `i` matched.
pub open spec fn grep_output(ls: Seq<Seq<char>>, ms: Seq<bool>, after: int, before: int) -> Seq<
    Shown,
> {
    output_upto(ls, ms, after, before, ms.len() as int)
}

/// What feeding line number `n` pushes out of the window, given the lines
/// `ls` and matches `ms` seen before it: line `n - before - 1`, printed if it
/// is near a match seen so far, else a separator if the line before it was
/// printed.
pub open spec fn popped_on_feed(
    ls: Seq<Seq<char>>,
    ms: Seq<bool>,
    after: int,
    before: int,
    n: int,
) -> Option<Shown> {
    let p = n - before - 1;
    if p < 0 {
        None
    } else if near_match(ms, n, p, after, before) {
        Some(Shown::Line(ls[p]))
    } else if p >= 1 && near_match(ms, n, p - 1, after, before) {
        Some(Shown::Separator)
    } else {
        None
    }
}

/// The printed lines among lines `i` to the last.
pub open spec fn flushed_from(
    ls: Seq<Seq<char>>,
    ms: Seq<bool>,
    after: int,
    before: int,
    i: int,
) -> Seq<Seq<char>>
    decreases ms.len() - i,
{
    if i < 0 || i >= ms.len() {
        seq![]
    } else if shown(ms, i, after, before) {
        seq![ls[i]] + flushed_from(ls, ms, after, before, i + 1)
    } else {
        flushed_from(ls, ms, after, before, i + 1)
    }
}

/// The printed lines among the last `before + 1` lines.
pub open spec fn flushed(ls: Seq<Seq<char>>, ms: Seq<bool>, after: int, before: int) -> Seq<
    Seq<char>,
> {
    let k = ms.len() - before - 1;
    flushed_from(ls, ms, after, before, if k < 0 { 0 } else { k })
}

/// How many more lines are printed after the last line of the first `n`,
/// counting that line: `after + 1` right after a match, one less on each
/// line after it, never below 0.
spec fn after_count(ms: Seq<bool>, n: int, a: int) -> int
    decreases n,
{
    if n <= 0 {
        0
    } else if ms[n - 1] {
        a + 1
    } else if after_count(ms, n - 1, a) >= 1 {
        after_count(ms, n - 1, a) - 1
    } else {
        0
    }
}

proof fn lemma_after_count(ms: Seq<bool>, n: int, a: int, d: int)
    requires
        0 <= n <= ms.len(),
        a >= 0,
        d >= 0,
    ensures
        (after_count(ms, n, a) > d) == (exists|j: int|
            0 <= j < n && #[trigger] ms[j] && n - 1 - j <= a - d),
        0 <= after_count(ms, n, a) <= a + 1,
    decreases n,
{
    if n > 0 {
        lemma_after_count(ms, n - 1, a, d + 1);
        lemma_after_count(ms, n - 1, a, 0);
        if ms[n - 1] {
            if d <= a {
                assert(ms[n - 1] && n - 1 - (n - 1) <= a - d);
            }
        } else {
            if after_count(ms, n, a) > d {
                let j = choose|j: int| 0 <= j < n - 1 && #[trigger] ms[j] && n - 2 - j <= a - d - 1;
                assert(0 <= j < n && ms[j] && n - 1 - j <= a - d);
            }
            if exists|j: int| 0 <= j < n && #[trigger] ms[j] && n - 1 - j <= a - d {
                let j = choose|j: int| 0 <= j < n && #[trigger] ms[j] && n - 1 - j <= a - d;
                assert(0 <= j < n - 1 && ms[j] && n - 2 - j <= a - d - 1);
            }
        }
    }
}

proof fn lemma_after_count_push(ms: Seq<bool>, m: bool, n: int, a: int)
    requires
        0 <= n <= ms.len(),
    ensures
        after_count(ms.push(m), n, a) == after_count(ms, n, a),
    decreases n,
{
    if n > 0 {
        lemma_after_count_push(ms, m, n - 1, a);
        assert(ms.push(m)[n - 1] == ms[n - 1]);
    }
}

proof fn lemma_near_match_push(ms: Seq<bool>, m: bool, i: int, a: int, b: int)
    ensures
        near_match(ms.push(m), ms.len() + 1int, i, a, b) == (near_match(ms, ms.len() as int, i, a, b)
            || (m && ms.len() - b <= i <= ms.len() + a)),
{
    let ms2 = ms.push(m);
    let n = ms.len() as int;
    if near_match(ms2, n + 1, i, a, b) {
        let j = choose|j: int| 0 <= j < n + 1 && #[trigger] ms2[j] && j - b <= i && i <= j + a;
        if j < n {
            assert(ms[j] == ms2[j]);
            assert(near_match(ms, n, i, a, b));
        }
    }
    if near_match(ms, n, i, a, b) {
        let j = choose|j: int| 0 <= j < n && #[trigger] ms[j] && j - b <= i && i <= j + a;
        assert(ms2[j] == ms[j]);
        assert(near_match(ms2, n + 1, i, a, b));
    }
    if m && n - b <= i <= n + a {
        assert(ms2[n]);
        assert(near_match(ms2, n + 1, i, a, b));
    }
}

proof fn lemma_output_upto_push(
    ls: Seq<Seq<char>>,
    ms: Seq<bool>,
    t: Seq<char>,
    m: bool,
    a: int,
    b: int,
    k: int,
)
    requires
        ls.len() == ms.len(),
        a >= 0,
        b >= 0,
        0 <= k,
        k <= ms.len() - b - 1,
    ensures
        output_upto(ls.push(t), ms.push(m), a, b, k) == output_upto(ls, ms, a, b, k),
    decreases k,
{
    if k > 0 {
        lemma_output_upto_push(ls, ms, t, m, a, b, k - 1);
        let i = k - 1;
        lemma_near_match_push(ms, m, i, a, b);
        lemma_near_match_push(ms, m, i - 1, a, b);
        assert(ls.push(t)[i] == ls[i]);
        assert(output_at(ls.push(t), ms.push(m), a, b, i) == output_at(ls, ms, a, b, i));
    }
}

proof fn lemma_flushed(ls: Seq<Seq<char>>, ms: Seq<bool>, a: int, b: int, k: int)
    requires
        ls.len() == ms.len(),
        b >= 0,
        ms.len() - b - 1 <= k <= ms.len(),
        0 <= k,
    ensures
        output_upto(ls, ms, a, b, k) + as_shown(flushed_from(ls, ms, a, b, k)) == grep_output(
            ls,
            ms,
            a,
            b,
        ),
    decreases ms.len() - k,
{
    if k < ms.len() {
        lemma_flushed(ls, ms, a, b, k + 1);
        let rest = flushed_from(ls, ms, a, b, k + 1);
        if shown(ms, k, a, b) {
            assert(as_shown(seq![ls[k]] + rest) =~= seq![Shown::Line(ls[k])] + as_shown(rest));
        }
        assert(output_upto(ls, ms, a, b, k + 1) == output_upto(ls, ms, a, b, k) + output_at(
            ls,
            ms,
            a,
            b,
            k,
        ));
    } else {
        assert(as_shown(flushed_from(ls, ms, a, b, k)) =~= seq![]);
    }
}

proof fn lemma_output_upto_keeps(
    ls: Seq<Seq<char>>,
    ms: Seq<bool>,
    a: int,
    b: int,
    k: int,
    m: int,
    x: Shown,
)
    requires
        0 <= k <= m,
        output_upto(ls, ms, a, b, k).contains(x),
    ensures
        output_upto(ls, ms, a, b, m).contains(x),
    decreases m - k,
{
    if k < m {
        lemma_output_upto_keeps(ls, ms, a, b, k, m - 1, x);
        let prev = output_upto(ls, ms, a, b, m - 1);
        let j = choose|j: int| 0 <= j < prev.len() && prev[j] == x;
        assert(output_upto(ls, ms, a, b, m)[j] == x);
    }
}

/// Every line that matches is printed: for lines `ls` whose matches are
/// `ms`, a matching line `i` appears in the output, whatever the context
/// sizes.
pub proof fn lemma_matching_line_printed(
    ls: Seq<Seq<char>>,
    ms: Seq<bool>,
    after: int,
    before: int,
    i: int,
)
    requires
        ls.len() == ms.len(),
        0 <= i < ms.len(),
        ms[i],
        after >= 0,
        before >= 0,
    ensures
        grep_output(ls, ms, after, before).contains(Shown::Line(ls[i])),
{
    assert(shown(ms, i, after, before));
    let o = output_upto(ls, ms, after, before, i + 1);
    assert(o == output_upto(ls, ms, after, before, i) + seq![Shown::Line(ls[i])]);
    assert(o[o.len() - 1] == Shown::Line(ls[i]));
    lemma_output_upto_keeps(ls, ms, after, before, i + 1, ms.len() as int, Shown::Line(ls[i]));
}

/// Only lines near a match are printed: every line in the output of a search
/// over lines `ls` whose matches are `ms` is some line `i` lying within
/// `before` lines before or `after` lines after a matching line.
pub proof fn lemma_printed_line_near_match(
    ls: Seq<Seq<char>>,
    ms: Seq<bool>,
    after: int,
    before: int,
    t: Seq<char>,
)
    requires
        ls.len() == ms.len(),
        grep_output(ls, ms, after, before).contains(Shown::Line(t)),
    ensures
        exists|i: int| 0 <= i < ms.len() && ls[i] == t && shown(ms, i, after, before),
{
    lemma_output_upto_lines(ls, ms, after, before, ms.len() as int, t);
}

proof fn lemma_output_upto_lines(
    ls: Seq<Seq<char>>,
    ms: Seq<bool>,
    a: int,
    b: int,
    k: int,
    t: Seq<char>,
)
    requires
        ls.len() == ms.len(),
        k <= ms.len(),
        output_upto(ls, ms, a, b, k).contains(Shown::Line(t)),
    ensures
        exists|i: int| 0 <= i < k && ls[i] == t && shown(ms, i, a, b),
    decreases k,
{
    if k > 0 {
        let prev = output_upto(ls, ms, a, b, k - 1);
        let here = output_at(ls, ms, a, b, k - 1);
        let o = output_upto(ls, ms, a, b, k);
        assert(o == prev + here);
        let j = choose|j: int| 0 <= j < o.len() && o[j] == Shown::Line(t);
        if j < prev.len() {
            assert(prev[j] == Shown::Line(t));
            lemma_output_upto_lines(ls, ms, a, b, k - 1, t);
            let i = choose|i: int| 0 <= i < k - 1 && ls[i] == t && shown(ms, i, a, b);
            assert(0 <= i < k && ls[i] == t && shown(ms, i, a, b));
        } else {
            assert(here[j - prev.len()] == Shown::Line(t));
            assert(0 <= k - 1 < k && ls[k - 1] == t && shown(ms, k - 1, a, b));
        }
    }
}

proof fn lemma_separator_follows_line_upto(
    ls: Seq<Seq<char>>,
    ms: Seq<bool>,
    a: int,
    b: int,
    k: int,
)
    requires
        ls.len() == ms.len(),
        0 <= k <= ms.len(),
    ensures
        forall|j: int|
            0 <= j < output_upto(ls, ms, a, b, k).len() && (#[trigger] output_upto(
                ls,
                ms,
                a,
                b,
                k,
            )[j]) is Separator ==> j >= 1 && output_upto(ls, ms, a, b, k)[j - 1] is Line,
    decreases k,
{
    if k > 0 {
        let i = k - 1;
        lemma_separator_follows_line_upto(ls, ms, a, b, i);
        let prev = output_upto(ls, ms, a, b, i);
        let here = output_at(ls, ms, a, b, i);
        let o = output_upto(ls, ms, a, b, k);
        assert(o == prev + here);
        if !shown(ms, i, a, b) && 1 <= i && shown(ms, i - 1, a, b) && i + b + 2 <= ms.len() {
            let before_prev = output_upto(ls, ms, a, b, i - 1);
            assert(prev == before_prev + output_at(ls, ms, a, b, i - 1));
            assert(output_at(ls, ms, a, b, i - 1) == seq![Shown::Line(ls[i - 1])]);
            assert(prev.len() >= 1 && prev[prev.len() - 1] is Line);
        }
        assert forall|j: int| 0 <= j < o.len() && (#[trigger] o[j]) is Separator implies j >= 1
            && o[j - 1] is Line by {
            if j < prev.len() {
                assert(o[j] == prev[j]);
                assert(prev[j] is Separator);
                assert(o[j - 1] == prev[j - 1]);
            } else {
                assert(here[j - prev.len()] is Separator);
                assert(j == prev.len());
            }
        }
    }
}

/// A separator only ever stands right after a printed line: it is never the
/// first item of the output, and two separators are never next to each
/// other. The separator closes a group of printed lines; the silent lines
/// that follow add nothing.
pub proof fn lemma_separator_follows_line(
    ls: Seq<Seq<char>>,
    ms: Seq<bool>,
    after: int,
    before: int,
)
    requires
        ls.len() == ms.len(),
    ensures
        forall|j: int|
            0 <= j < grep_output(ls, ms, after, before).len() && (#[trigger] grep_output(
                ls,
                ms,
                after,
                before,
            )[j]) is Separator ==> j >= 1 && grep_output(ls, ms, after, before)[j - 1] is Line,
{
    lemma_separator_follows_line_upto(ls, ms, after, before, ms.len() as int);
}

/// The printed lines of an output, its separators left out.
pub open spec fn printed_lines(o: Seq<Shown>) -> Seq<Shown> {
    o.filter(|x: Shown| x is Line)
}

proof fn lemma_no_context_upto(
    ls: Seq<Seq<char>>,
    ms: Seq<bool>,
    g: spec_fn(Seq<char>) -> bool,
    k: int,
)
    requires
        ls.len() == ms.len(),
        0 <= k <= ms.len(),
        forall|i: int| 0 <= i < ms.len() ==> ms[i] == g(#[trigger] ls[i]),
    ensures
        printed_lines(output_upto(ls, ms, 0, 0, k)) == as_shown(ls.take(k).filter(g)),
    decreases k,
{
    let line_item = |x: Shown| x is Line;
    if k == 0 {
        assert(ls.take(0) =~= Seq::<Seq<char>>::empty());
        assert(as_shown(Seq::<Seq<char>>::empty()) =~= Seq::<Shown>::empty());
    } else {
        let i = k - 1;
        lemma_no_context_upto(ls, ms, g, i);
        let prev = output_upto(ls, ms, 0, 0, i);
        let here = output_at(ls, ms, 0, 0, i);
        Seq::filter_distributes_over_add(prev, here, line_item);
        assert(ls.take(k) =~= ls.take(i).push(ls[i]));
        ls.take(i).lemma_filter_push(ls[i], g);
        if ms[i] {
            assert(ms[i] && i - 0 <= i && i <= i + 0);
            assert(shown(ms, i, 0, 0));
            assert(here == seq![Shown::Line(ls[i])]);
            Seq::<Shown>::empty().lemma_filter_push(Shown::Line(ls[i]), line_item);
            assert(Seq::<Shown>::empty().push(Shown::Line(ls[i])) =~= here);
            assert(printed_lines(here) =~= seq![Shown::Line(ls[i])]);
            assert(as_shown(ls.take(i).filter(g).push(ls[i])) =~= as_shown(ls.take(i).filter(g))
                + seq![Shown::Line(ls[i])]);
        } else {
            if shown(ms, i, 0, 0) {
                let j = choose|j: int| 0 <= j < ms.len() && #[trigger] ms[j] && j - 0 <= i && i <= j + 0;
                assert(j == i);
            }
            if here.len() == 1 {
                assert(here == seq![Shown::Separator]);
                Seq::<Shown>::empty().lemma_filter_push(Shown::Separator, line_item);
                assert(Seq::<Shown>::empty().push(Shown::Separator) =~= here);
            }
            assert(printed_lines(here) =~= Seq::<Shown>::empty());
        }
    }
}

/// With no context lines, a search prints exactly the lines that the pattern
/// matches, in order, besides its separators; and, with no color and no file
/// name, a line is printed as it is. For the lines of a text `t` and a
/// pattern `p`, the printed lines are those `search_re` finds.
pub proof fn lemma_no_context_is_search_re(t: Seq<char>, p: Seq<char>)
    ensures
        printed_lines(
            grep_output(lines(t), lines(t).map_values(|l: Seq<char>| regex_is_match(p, l)), 0, 0),
        ) == as_shown(lines_matching(t, p)),
        forall|l: Seq<char>| rendered(p, false, Seq::<char>::empty(), l) == l,
{
    let ls = lines(t);
    let ms = ls.map_values(|l: Seq<char>| regex_is_match(p, l));
    let g = |l: Seq<char>| regex_is_match(p, l);
    lemma_no_context_upto(ls, ms, g, ms.len() as int);
    assert(ls.take(ms.len() as int) =~= ls);
    assert forall|l: Seq<char>| rendered(p, false, Seq::<char>::empty(), l) == l by {
        assert(Seq::<char>::empty() + path_sep(Seq::<char>::empty()) + l =~= l);
    }
}

enum MyStatus {
    Printing,
    Silent,
}

/// The state of a search over a stream of lines.
pub struct GrepState {
    window: Vec<OneLine>,
    max_stored: usize,
    after: usize,
    count_after: usize,
    status: MyStatus,
    lines: Ghost<Seq<Seq<char>>>,
    matches: Ghost<Seq<bool>>,
    emitted: Ghost<Seq<Shown>>,
}

impl GrepState {
    /// The lines fed so far.
    pub closed spec fn lines(&self) -> Seq<Seq<char>> {
        self.lines@
    }

    /// Whether each line fed so far matched.
    pub closed spec fn matches(&self) -> Seq<bool> {
        self.matches@
    }

    /// Everything handed out by `feed_line` so far, in order.
    pub closed spec fn emitted(&self) -> Seq<Shown> {
        self.emitted@
    }

    /// The number of context lines printed after a match.
    pub closed spec fn after(&self) -> int {
        self.after as int
    }

    /// The number of context lines printed before a match.
    pub closed spec fn before(&self) -> int {
        self.max_stored - 1
    }

    /// The state is consistent with the lines fed so far.
    pub closed spec fn wf(&self) -> bool {
        let ls = self.lines@;
        let ms = self.matches@;
        let n = ms.len() as int;
        let a = self.after as int;
        let b = self.max_stored - 1;
        let w = self.window@;
        let p = n - w.len();
        &&& ls.len() == n
        &&& self.max_stored >= 1
        &&& self.after < usize::MAX
        &&& w.len() == (if n < self.max_stored {
            n
        } else {
            self.max_stored as int
        })
        &&& forall|k: int|
            0 <= k < w.len() ==> (#[trigger] w[k])@.text == ls[n - 1 - k] && w[k]@.prints
                == near_match(ms, n, n - 1 - k, a, b)
        &&& self.count_after == after_count(ms, n, a)
        &&& (self.status is Printing) == (p > 0 && near_match(ms, n, p - 1, a, b))
        &&& self.emitted@ == output_upto(ls, ms, a, b, p)
    }

    /// A search with no line seen yet, printing `beforelines` lines of
    /// context before each match and `afterlines` after it.
    pub fn new(beforelines: usize, afterlines: usize) -> (r: Self)
        requires
            beforelines < usize::MAX,
            afterlines < usize::MAX,
        ensures
            r.wf(),
            r.lines() == Seq::<Seq<char>>::empty(),
            r.matches() == Seq::<bool>::empty(),
            r.emitted() == Seq::<Shown>::empty(),
            r.before() == beforelines,
            r.after() == afterlines,
    {
        let r = GrepState {
            window: Vec::new(),
            max_stored: beforelines + 1,
            after: afterlines,
            count_after: 0,
            status: MyStatus::Silent,
            lines: Ghost(Seq::empty()),
            matches: Ghost(Seq::empty()),
            emitted: Ghost(Seq::empty()),
        };
        r
    }
    /// Marks every line in the window to be printed.
    fn mark_window(&mut self)
        ensures
            final(self).window@.len() == old(self).window@.len(),
            forall|k: int|
                0 <= k < old(self).window@.len() ==> (#[trigger] final(self).window@[k])@ == (
                LineView { prints: true, ..old(self).window@[k]@ }),
            final(self).max_stored == old(self).max_stored,
            final(self).after == old(self).after,
            final(self).count_after == old(self).count_after,
            final(self).status == old(self).status,
            final(self).lines == old(self).lines,
            final(self).matches == old(self).matches,
            final(self).emitted == old(self).emitted,
    {
        let len = self.window.len();
        for i in 0..len
            invariant
                len == old(self).window@.len(),
                self.window@.len() == len,
                forall|k: int|
                    0 <= k < i ==> (#[trigger] self.window@[k])@ == (LineView {
                        prints: true,
                        ..old(self).window@[k]@
                    }),
                forall|k: int| i <= k < len ==> #[trigger] self.window@[k] == old(self).window@[k],
                self.max_stored == old(self).max_stored,
                self.after == old(self).after,
                self.count_after == old(self).count_after,
                self.status == old(self).status,
                self.lines == old(self).lines,
                self.matches == old(self).matches,
                self.emitted == old(self).emitted,
        {
            self.window[i].toggle_prints();
        }
    }

    /// Takes the next line, `line`, which matched the pattern when
    /// `is_match`. The oldest line in the window leaves it when the window is
    /// full: it comes back when it is to be printed, or a separator comes
    /// back in its place when it ends a group of printed lines.
    pub fn feed_line(&mut self, line: String, is_match: bool) -> (r: Option<Popped>)
        requires
            old(self).wf(),
        ensures
            final(self).wf(),
            final(self).lines() == old(self).lines().push(line@),
            final(self).matches() == old(self).matches().push(is_match),
            final(self).after() == old(self).after(),
            final(self).before() == old(self).before(),
            opt_view(r) == popped_on_feed(
                old(self).lines(),
                old(self).matches(),
                old(self).after(),
                old(self).before(),
                old(self).lines().len() as int,
            ),
            final(self).emitted() == old(self).emitted() + opt_seq(opt_view(r)),
    {
        let ghost ls = self.lines@;
        let ghost ms = self.matches@;
        let ghost n = ms.len() as int;
        let ghost a = self.after as int;
        let ghost b = self.max_stored - 1;
        let ghost ls2 = ls.push(line@);
        let ghost ms2 = ms.push(is_match);
        let ghost p0 = n - self.window@.len();
        let mut popped: Option<Popped> = None;
        if self.window.len() >= self.max_stored {
            let last = self.window.pop();
            match last {
                Some(linea) => {
                    assert(linea@.text == ls[p0] && linea@.prints == near_match(ms, n, p0, a, b));
                    if linea.prints() {
                        self.status = MyStatus::Printing;
                        popped = Some(Popped::Line(linea.into_text()));
                    } else {
                        if let MyStatus::Printing = self.status {
                            popped = Some(Popped::Separator);
                        }
                        self.status = MyStatus::Silent;
                    }
                },
                None => {},
            }
        }
        proof {
            lemma_after_count(ms, n, a, 0);
            lemma_after_count_push(ms, is_match, n, a);
            lemma_after_count(ms2, n + 1, a, 0);
        }
        self.count_after = if is_match {
            self.after + 1
        } else if self.count_after >= 1 {
            self.count_after - 1
        } else {
            0
        };
        if is_match {
            self.mark_window();
        }
        let prints = self.count_after > 0;
        let ghost w_mid = self.window@;
        self.window.insert(0, OneLine::new(line, prints, is_match));
        proof {
            let p = n + 1 - self.window@.len();
            // the line just fed
            lemma_near_match_push(ms, is_match, n, a, b);
            if prints {
                let j = choose|j: int| 0 <= j < n + 1 && #[trigger] ms2[j] && n + 1 - 1 - j <= a - 0;
                assert(near_match(ms2, n + 1, n, a, b));
            }
            if near_match(ms2, n + 1, n, a, b) {
                let j = choose|j: int| 0 <= j < n + 1 && #[trigger] ms2[j] && j - b <= n && n <= j + a;
                assert(0 <= j < n + 1 && ms2[j] && n + 1 - 1 - j <= a - 0);
            }
            // the lines still in the window
            assert forall|k: int| 0 <= k < self.window@.len() implies (#[trigger] self.window@[k])@.text
                == ls2[n + 1 - 1 - k] && self.window@[k]@.prints == near_match(
                ms2,
                n + 1,
                n + 1 - 1 - k,
                a,
                b,
            ) by {
                if k > 0 {
                    lemma_near_match_push(ms, is_match, n - k, a, b);
                    assert(self.window@[k] == w_mid[k - 1]);
                }
            }
            // the separator state and the output so far
            if p > p0 {
                lemma_near_match_push(ms, is_match, p0, a, b);
                lemma_near_match_push(ms, is_match, p0 - 1, a, b);
                lemma_output_upto_push(ls, ms, line@, is_match, a, b, p0);
                assert(ls2[p0] == ls[p0]);
                assert(output_upto(ls2, ms2, a, b, p) == output_upto(ls2, ms2, a, b, p0) + output_at(
                    ls2,
                    ms2,
                    a,
                    b,
                    p0,
                ));
            } else {
                assert(output_upto(ls2, ms2, a, b, p) == output_upto(ls, ms, a, b, p0));
            }
            self.lines = Ghost(ls2);
            self.matches = Ghost(ms2);
            self.emitted = Ghost(self.emitted@ + opt_seq(opt_view(popped)));
        }
        popped
    }

    /// Takes the next line, `line`, and tests it against `re`; otherwise as
    /// `feed_line`.
    pub fn feed(&mut self, re: &Matcher, line: String) -> (r: Option<Popped>)
        requires
            old(self).wf(),
        ensures
            final(self).wf(),
            final(self).lines() == old(self).lines().push(line@),
            final(self).matches() == old(self).matches().push(regex_is_match(re@, line@)),
            final(self).after() == old(self).after(),
            final(self).before() == old(self).before(),
            opt_view(r) == popped_on_feed(
                old(self).lines(),
                old(self).matches(),
                old(self).after(),
                old(self).before(),
                old(self).lines().len() as int,
            ),
            final(self).emitted() == old(self).emitted() + opt_seq(opt_view(r)),
    {
        let is_match = re.is_match(line.as_str());
        self.feed_line(line, is_match)
    }

    /// The input broke off before its next line could be read: what leaves
    /// the window at that point, as if a line had arrived.
    pub fn interrupted(self) -> (r: Option<Popped>)
        requires
            self.wf(),
        ensures
            opt_view(r) == popped_on_feed(
                self.lines(),
                self.matches(),
                self.after(),
                self.before(),
                self.lines().len() as int,
            ),
    {
        let ghost ls = self.lines@;
        let ghost ms = self.matches@;
        let ghost n = ms.len() as int;
        let ghost a = self.after as int;
        let ghost b = self.max_stored - 1;
        let ghost p0 = n - self.window@.len();
        let mut window = self.window;
        if window.len() >= self.max_stored {
            match window.pop() {
                Some(linea) => {
                    assert(linea@.text == ls[p0] && linea@.prints == near_match(ms, n, p0, a, b));
                    if linea.prints() {
                        return Some(Popped::Line(linea.into_text()));
                    } else if let MyStatus::Printing = self.status {
                        return Some(Popped::Separator);
                    }
                },
                None => {},
            }
        }
        None
    }

    /// Ends the input: the lines still in the window that are to be printed,
    /// oldest first. Together with everything `feed_line` handed out, they
    /// make up `grep_output` of all the lines fed.
    pub fn finish(self) -> (r: Vec<String>)
        requires
            self.wf(),
        ensures
            string_views(r@) == flushed(self.lines(), self.matches(), self.after(), self.before()),
            self.emitted() + as_shown(string_views(r@)) == grep_output(
                self.lines(),
                self.matches(),
                self.after(),
                self.before(),
            ),
    {
        let ghost ls = self.lines@;
        let ghost ms = self.matches@;
        let ghost n = ms.len() as int;
        let ghost a = self.after as int;
        let ghost b = self.max_stored - 1;
        let ghost w0 = self.window@;
        let ghost p = n - w0.len();
        let mut window = self.window;
        let mut out: Vec<String> = Vec::new();
        while window.len() > 0
            invariant
                ls.len() == n,
                ms.len() == n,
                0 <= p <= n,
                window@.len() <= w0.len(),
                w0.len() == n - p,
                forall|k: int| 0 <= k < window@.len() ==> #[trigger] window@[k] == w0[k],
                forall|k: int|
                    0 <= k < w0.len() ==> (#[trigger] w0[k])@.text == ls[n - 1 - k] && w0[k]@.prints
                        == near_match(ms, n, n - 1 - k, a, b),
                string_views(out@) + flushed_from(ls, ms, a, b, n - window@.len()) == flushed_from(
                    ls,
                    ms,
                    a,
                    b,
                    p,
                ),
            decreases window@.len(),
        {
            let ghost i = n - window@.len();
            let ghost before_out = out@;
            let last = window.pop();
            match last {
                Some(linea) => {
                    assert(linea == w0[window@.len() as int]);
                    if linea.prints() {
                        out.push(linea.into_text());
                        assert(string_views(out@) =~= string_views(before_out) + seq![ls[i]]);
                        assert(string_views(out@) + flushed_from(ls, ms, a, b, i + 1) =~= string_views(
                            before_out,
                        ) + flushed_from(ls, ms, a, b, i));
                    } else {
                        assert(string_views(out@) =~= string_views(before_out));
                    }
                },
                None => {},
            }
        }
        proof {
            assert(flushed_from(ls, ms, a, b, n) =~= Seq::<Seq<char>>::empty());
            assert(string_views(out@) =~= flushed_from(ls, ms, a, b, p));
            lemma_flushed(ls, ms, a, b, p);
        }
        out
    }
}

/// What separates a file name from a line: a colon, unless there is no
/// file name.
pub open spec fn path_sep(path: Seq<char>) -> Seq<char> {
    if path.len() == 0 {
        seq![]
    } else {
        seq![':']
    }
}

/// How a printed line looks: the file name and its separator, then the line;
/// in color, the file name in yellow and each match in red.
pub open spec fn rendered(pattern: Seq<char>, color: bool, path: Seq<char>, line: Seq<char>) -> Seq<
    char,
> {
    if color {
        "\x1B[33m"@ + path + "\x1B[0m"@ + path_sep(path) + regex_replace_all(
            pattern,
            line,
            "\x1B[31m$0\x1B[0m"@,
        )
    } else {
        path + path_sep(path) + line
    }
}

/// The text printed for the line `line` of the file shown as `path`.
pub fn render_line(re: &Matcher, color: bool, path: &str, line: &str) -> (r: String)
    ensures
        r@ == rendered(re@, color, path@, line@),
{
    let no_path = str_eq(path, "");
    proof {
        reveal_strlit("");
        reveal_strlit(":");
        assert(""@ =~= Seq::<char>::empty());
        assert(":"@ =~= seq![':']);
        if path@.len() == 0 {
            assert(path@ =~= ""@);
        }
    }
    let pathformat = if no_path {
        ""
    } else {
        ":"
    };
    assert(pathformat@ == path_sep(path@));
    if color {
        let temp = re.replace_all(line, "\x1B[31m$0\x1B[0m");
        let mut out = String::from_str("\x1B[33m");
        out.append(path);
        out.append("\x1B[0m");
        out.append(pathformat);
        out.append(temp.as_str());
        assert(out@ =~= "\x1B[33m"@ + path@ + "\x1B[0m"@ + path_sep(path@) + temp@);
        out
    } else {
        let mut out = String::from_str(path);
        out.append(pathformat);
        out.append(line);
        assert(out@ =~= path@ + path_sep(path@) + line@);
        out
    }
}

} // verus!
