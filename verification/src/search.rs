//! Picking the lines of a text that contain a pattern.
use vstd::prelude::*;
use crate::grep::path_sep;
use crate::matcher::{regex_is_match, regex_replace_all, Matcher};
use crate::text::{
    chars_of, contains, contains_in, occurs_at, find_line_end, lemma_line_end_bounds, lines, lines_from,
    lowercase, pieces_from, split_newlines, str_eq, str_views, string_views, strip_cr,
    to_lowercase,
};

verus! {

broadcast use vstd::seq_lib::group_filter_ensures;

/// The lines of `text` that contain `pattern`.
pub open spec fn lines_containing(text: Seq<char>, pattern: Seq<char>) -> Seq<Seq<char>> {
    lines(text).filter(|l: Seq<char>| contains(l, pattern))
}

/// The pieces of `text` between newlines whose lowercase form contains the
/// lowercase form of `pattern`.
pub open spec fn pieces_containing_ignoring_case(text: Seq<char>, pattern: Seq<char>) -> Seq<
    Seq<char>,
> {
    split_newlines(text).filter(|l: Seq<char>| contains(lowercase(l), lowercase(pattern)))
}

/// The lines of `text` that the regular expression `pattern` matches.
pub open spec fn lines_matching(text: Seq<char>, pattern: Seq<char>) -> Seq<Seq<char>> {
    lines(text).filter(|l: Seq<char>| regex_is_match(pattern, l))
}

proof fn lemma_filter_cons(x: Seq<char>, rest: Seq<Seq<char>>, f: spec_fn(Seq<char>) -> bool)
    ensures
        (seq![x] + rest).filter(f) == (if f(x) {
            seq![x]
        } else {
            seq![]
        }) + rest.filter(f),
{
    Seq::filter_distributes_over_add(seq![x], rest, f);
    Seq::<Seq<char>>::empty().lemma_filter_push(x, f);
    assert(Seq::<Seq<char>>::empty().push(x) =~= seq![x]);
    assert(Seq::<Seq<char>>::empty().filter(f) =~= seq![]);
}

proof fn lemma_filter_exact(s: Seq<Seq<char>>, f: spec_fn(Seq<char>) -> bool)
    ensures
        forall|k: int|
            0 <= k < s.filter(f).len() ==> f(#[trigger] s.filter(f)[k]) && s.contains(
                s.filter(f)[k],
            ),
        forall|l: Seq<char>| s.contains(l) && f(l) ==> #[trigger] s.filter(f).contains(l),
{
    assert forall|k: int| 0 <= k < s.filter(f).len() implies f(#[trigger] s.filter(f)[k])
        && s.contains(s.filter(f)[k]) by {
        s.lemma_filter_pred(f, k);
        assert(s.filter(f).contains(s.filter(f)[k]));
        s.lemma_filter_contains_rev(f, s.filter(f)[k]);
    }
    assert forall|l: Seq<char>| s.contains(l) && f(l) implies #[trigger] s.filter(f).contains(
        l,
    ) by {
        let i = choose|i: int| 0 <= i < s.len() && s[i] == l;
        s.lemma_filter_contains(f, i);
    }
}

proof fn lemma_views_index<'a>(v: Seq<&'a str>)
    ensures
        str_views(v).len() == v.len(),
        forall|k: int| 0 <= k < v.len() ==> #[trigger] str_views(v)[k] == v[k]@,
{
}

/// The lines of `linee` that contain `pattern`, in order.
pub fn search<'a>(pattern: &str, linee: &'a str) -> (r: Vec<&'a str>)
    ensures
        str_views(r@) == lines_containing(linee@, pattern@),
        forall|k: int|
            0 <= k < r@.len() ==> contains(#[trigger] r@[k]@, pattern@) && lines(linee@).contains(
                r@[k]@,
            ),
        forall|l: Seq<char>|
            lines(linee@).contains(l) && contains(l, pattern@) ==> #[trigger] str_views(
                r@,
            ).contains(l),
{
    let ghost s = linee@;
    let ghost f = |l: Seq<char>| contains(l, pattern@);
    let cs = chars_of(linee);
    let pat = chars_of(pattern);
    let mut r: Vec<&'a str> = Vec::new();
    let mut i: usize = 0;
    while i < cs.len()
        invariant
            cs@ == s,
            s == linee@,
            pat@ == pattern@,
            f == (|l: Seq<char>| contains(l, pattern@)),
            i <= cs@.len(),
            str_views(r@) + lines_from(s, i as int).filter(f) == lines(s).filter(f),
        decreases cs@.len() - i,
    {
        let e = find_line_end(&cs, i);
        proof {
            lemma_line_end_bounds(s, i as int);
        }
        let hi = if e < cs.len() && e > i && cs[e - 1] == '\r' {
            e - 1
        } else {
            e
        };
        let ghost line = if e < cs@.len() {
            strip_cr(s.subrange(i as int, e as int))
        } else {
            s.subrange(i as int, s.len() as int)
        };
        assert(line =~= s.subrange(i as int, hi as int));
        let ghost rest = if e < cs@.len() {
            lines_from(s, e + 1)
        } else {
            seq![]
        };
        assert(lines_from(s, i as int) == seq![line] + rest);
        proof {
            lemma_filter_cons(line, rest, f);
        }
        let ghost before = r@;
        if contains_in(&cs, i, hi, &pat) {
            r.push(linee.substring_char(i, hi));
            assert(str_views(r@) =~= str_views(before) + seq![line]);
        }
        if e < cs.len() {
            i = e + 1;
        } else {
            assert(lines_from(s, cs@.len() as int) =~= seq![]);
            i = e;
        }
    }
    assert(lines_from(s, i as int) =~= seq![]);
    proof {
        lemma_filter_exact(lines(s), f);
        lemma_views_index(r@);
        assert forall|k: int| 0 <= k < r@.len() implies f(#[trigger] r@[k]@) && lines(s).contains(
            r@[k]@,
        ) by {
            assert(str_views(r@)[k] == r@[k]@);
            assert(lines(s).filter(f)[k] == r@[k]@);
        }
    }
    r
}

/// The pieces of `linee` between newlines (a carriage return stays where it
/// is) that contain `pattern` when both are lowercased, in order.
pub fn search_case_insensitive<'a>(pattern: &str, linee: &'a str) -> (r: Vec<&'a str>)
    ensures
        str_views(r@) == pieces_containing_ignoring_case(linee@, pattern@),
        forall|k: int|
            0 <= k < r@.len() ==> contains(lowercase(#[trigger] r@[k]@), lowercase(pattern@))
                && split_newlines(linee@).contains(r@[k]@),
        forall|l: Seq<char>|
            split_newlines(linee@).contains(l) && contains(lowercase(l), lowercase(pattern@))
                ==> #[trigger] str_views(r@).contains(l),
{
    let ghost s = linee@;
    let ghost f = |l: Seq<char>| contains(lowercase(l), lowercase(pattern@));
    let lowered = to_lowercase(pattern);
    let pat = chars_of(lowered.as_str());
    let cs = chars_of(linee);
    let mut r: Vec<&'a str> = Vec::new();
    let mut i: usize = 0;
    loop
        invariant_except_break
            str_views(r@) + pieces_from(s, i as int).filter(f) == split_newlines(s).filter(f),
        invariant
            cs@ == s,
            s == linee@,
            pat@ == lowercase(pattern@),
            f == (|l: Seq<char>| contains(lowercase(l), lowercase(pattern@))),
            i <= cs@.len(),
        ensures
            str_views(r@) == split_newlines(s).filter(f),
        decreases cs@.len() - i,
    {
        let e = find_line_end(&cs, i);
        proof {
            lemma_line_end_bounds(s, i as int);
        }
        let piece = linee.substring_char(i, e);
        let ghost rest = if e < cs@.len() {
            pieces_from(s, e + 1)
        } else {
            seq![]
        };
        assert(pieces_from(s, i as int) == seq![piece@] + rest);
        proof {
            lemma_filter_cons(piece@, rest, f);
        }
        let ghost before = r@;
        let low = to_lowercase(piece);
        let low_chars = chars_of(low.as_str());
        if contains_in(&low_chars, 0, low_chars.len(), &pat) {
            assert(low_chars@.subrange(0, low_chars@.len() as int) =~= low_chars@);
            r.push(piece);
            assert(str_views(r@) =~= str_views(before) + seq![piece@]);
        } else {
            assert(low_chars@.subrange(0, low_chars@.len() as int) =~= low_chars@);
        }
        if e < cs.len() {
            i = e + 1;
        } else {
            assert(str_views(r@) == split_newlines(s).filter(f));
            break;
        }
    }
    proof {
        lemma_filter_exact(split_newlines(s), f);
        lemma_views_index(r@);
        assert forall|k: int| 0 <= k < r@.len() implies f(#[trigger] r@[k]@) && split_newlines(s).contains(
            r@[k]@,
        ) by {
            assert(str_views(r@)[k] == r@[k]@);
            assert(split_newlines(s).filter(f)[k] == r@[k]@);
        }
    }
    r
}

/// The lines of `linee` that the regular expression `re` matches, in order.
pub fn search_re<'a>(re: &Matcher, linee: &'a str) -> (r: Vec<&'a str>)
    ensures
        str_views(r@) == lines_matching(linee@, re@),
        forall|k: int|
            0 <= k < r@.len() ==> regex_is_match(re@, #[trigger] r@[k]@) && lines(
                linee@,
            ).contains(r@[k]@),
        forall|l: Seq<char>|
            lines(linee@).contains(l) && regex_is_match(re@, l) ==> #[trigger] str_views(
                r@,
            ).contains(l),
{
    let ghost s = linee@;
    let ghost f = |l: Seq<char>| regex_is_match(re@, l);
    let cs = chars_of(linee);
    let mut r: Vec<&'a str> = Vec::new();
    let mut i: usize = 0;
    while i < cs.len()
        invariant
            cs@ == s,
            s == linee@,
            f == (|l: Seq<char>| regex_is_match(re@, l)),
            i <= cs@.len(),
            str_views(r@) + lines_from(s, i as int).filter(f) == lines(s).filter(f),
        decreases cs@.len() - i,
    {
        let e = find_line_end(&cs, i);
        proof {
            lemma_line_end_bounds(s, i as int);
        }
        let hi = if e < cs.len() && e > i && cs[e - 1] == '\r' {
            e - 1
        } else {
            e
        };
        let ghost line = if e < cs@.len() {
            strip_cr(s.subrange(i as int, e as int))
        } else {
            s.subrange(i as int, s.len() as int)
        };
        assert(line =~= s.subrange(i as int, hi as int));
        let ghost rest = if e < cs@.len() {
            lines_from(s, e + 1)
        } else {
            seq![]
        };
        assert(lines_from(s, i as int) == seq![line] + rest);
        proof {
            lemma_filter_cons(line, rest, f);
        }
        let ghost before = r@;
        let candidate = linee.substring_char(i, hi);
        if re.is_match(candidate) {
            r.push(candidate);
            assert(str_views(r@) =~= str_views(before) + seq![line]);
        }
        if e < cs.len() {
            i = e + 1;
        } else {
            assert(lines_from(s, cs@.len() as int) =~= seq![]);
            i = e;
        }
    }
    assert(lines_from(s, i as int) =~= seq![]);
    proof {
        lemma_filter_exact(lines(s), f);
        lemma_views_index(r@);
        assert forall|k: int| 0 <= k < r@.len() implies f(#[trigger] r@[k]@) && lines(s).contains(
            r@[k]@,
        ) by {
            assert(str_views(r@)[k] == r@[k]@);
            assert(lines(s).filter(f)[k] == r@[k]@);
        }
    }
    r
}

/// How a line of a listing looks in color: each match in red, after the
/// file name in yellow when there is one.
pub open spec fn colored_listing(pattern: Seq<char>, line: Seq<char>, path: Seq<char>) -> Seq<char> {
    let temp = regex_replace_all(pattern, line, "\x1B[31m$0\x1B[0m"@);
    if path.len() == 0 {
        temp
    } else {
        "\x1B[33m"@ + path + ":\x1B[0m "@ + temp
    }
}

/// How a line of a listing looks: in color, or as the file name, its
/// separator and the line.
pub open spec fn listed(pattern: Seq<char>, color: bool, path: Seq<char>, line: Seq<char>) -> Seq<
    char,
> {
    if color {
        colored_listing(pattern, line, path)
    } else {
        path + path_sep(path) + line
    }
}

/// In color, a listed line is what `print_linee_with_color` makes of it;
/// without, it is the file name, its separator and the line unchanged.
pub proof fn lemma_listed_by_color(pattern: Seq<char>, path: Seq<char>, line: Seq<char>)
    ensures
        listed(pattern, true, path, line) == colored_listing(pattern, line, path),
        listed(pattern, false, path, line) == path + path_sep(path) + line,
{
}

/// The colored text of `linea` in a listing of the file shown as `path`.
pub fn print_linee_with_color(re: &Matcher, linea: &str, path: &str) -> (r: String)
    ensures
        r@ == colored_listing(re@, linea@, path@),
{
    let temp = re.replace_all(linea, "\x1B[31m$0\x1B[0m");
    let no_path = str_eq(path, "");
    proof {
        reveal_strlit("");
        if path@.len() == 0 {
            assert(path@ =~= ""@);
        }
    }
    if no_path {
        temp
    } else {
        let mut out = String::from_str("\x1B[33m");
        out.append(path);
        out.append(":\x1B[0m ");
        out.append(temp.as_str());
        out
    }
}

/// The text to print for each line of `linee` that `re` matches, in order,
/// for the file shown as `pathinfo`.
pub fn listing_lines(re: &Matcher, color: bool, linee: &str, pathinfo: &str) -> (r: Vec<String>)
    ensures
        string_views(r@) == lines_matching(linee@, re@).map_values(
            |l: Seq<char>| listed(re@, color, pathinfo@, l),
        ),
        r@.len() == lines_matching(linee@, re@).len(),
        forall|k: int|
            0 <= k < r@.len() ==> (#[trigger] r@[k])@ == (if color {
                colored_listing(re@, lines_matching(linee@, re@)[k], pathinfo@)
            } else {
                pathinfo@ + path_sep(pathinfo@) + lines_matching(linee@, re@)[k]
            }),
{
    let matching = search_re(re, linee);
    let no_path = str_eq(pathinfo, "");
    proof {
        reveal_strlit("");
        reveal_strlit(":");
        assert(""@ =~= Seq::<char>::empty());
        assert(":"@ =~= seq![':']);
        if pathinfo@.len() == 0 {
            assert(pathinfo@ =~= ""@);
        }
    }
    let pathformat = if no_path {
        ""
    } else {
        ":"
    };
    assert(pathformat@ == path_sep(pathinfo@));
    let ghost ls = str_views(matching@);
    let mut r: Vec<String> = Vec::new();
    for i in 0..matching.len()
        invariant
            ls == str_views(matching@),
            pathformat@ == path_sep(pathinfo@),
            string_views(r@) == ls.take(i as int).map_values(
                |l: Seq<char>| listed(re@, color, pathinfo@, l),
            ),
    {
        let l = matching[i];
        let text = if color {
            print_linee_with_color(re, l, pathinfo)
        } else {
            let mut out = String::from_str(pathinfo);
            out.append(pathformat);
            out.append(l);
            out
        };
        let ghost before = r@;
        r.push(text);
        assert(ls.take(i + 1) =~= ls.take(i as int).push(l@));
        assert(string_views(r@) =~= string_views(before).push(text@));
        assert(string_views(r@) =~= ls.take(i + 1).map_values(
            |l: Seq<char>| listed(re@, color, pathinfo@, l),
        ));
    }
    assert(ls.take(matching@.len() as int) =~= ls);
    proof {
        let lm = lines_matching(linee@, re@);
        assert forall|k: int| 0 <= k < r@.len() implies (#[trigger] r@[k])@ == (if color {
            colored_listing(re@, lm[k], pathinfo@)
        } else {
            pathinfo@ + path_sep(pathinfo@) + lm[k]
        }) by {
            assert(string_views(r@)[k] == r@[k]@);
            lemma_listed_by_color(re@, pathinfo@, lm[k]);
        }
    }
    r
}

proof fn lemma_contains_trans(l: Seq<char>, q: Seq<char>, p: Seq<char>)
    requires
        contains(l, q),
        contains(q, p),
    ensures
        contains(l, p),
{
    let k = choose|k: int| 0 <= k && k + q.len() <= l.len() && #[trigger] occurs_at(l, q, k);
    let j = choose|j: int| 0 <= j && j + p.len() <= q.len() && #[trigger] occurs_at(q, p, j);
    assert(l.subrange(k + j, k + j + p.len()) =~= q.subrange(j, j + p.len()));
    assert(occurs_at(l, p, k + j));
}

proof fn lemma_filter_stronger(
    s: Seq<Seq<char>>,
    f: spec_fn(Seq<char>) -> bool,
    g: spec_fn(Seq<char>) -> bool,
)
    requires
        forall|x: Seq<char>| #[trigger] g(x) ==> f(x),
    ensures
        s.filter(f).filter(g) == s.filter(g),
    decreases s.len(),
{
    if s.len() > 0 {
        let init = s.drop_last();
        let x = s.last();
        lemma_filter_stronger(init, f, g);
        assert(s =~= init.push(x));
        init.lemma_filter_push(x, f);
        init.lemma_filter_push(x, g);
        if f(x) {
            init.filter(f).lemma_filter_push(x, g);
        }
    }
}

proof fn lemma_filter_all(s: Seq<Seq<char>>, f: spec_fn(Seq<char>) -> bool)
    requires
        forall|x: Seq<char>| #[trigger] f(x),
    ensures
        s.filter(f) == s,
    decreases s.len(),
{
    if s.len() > 0 {
        let init = s.drop_last();
        lemma_filter_all(init, f);
        assert(s =~= init.push(s.last()));
        init.lemma_filter_push(s.last(), f);
    }
}

/// A longer pattern finds fewer lines: when `q` contains `p`, the lines
/// containing `q` are those of the lines containing `p` that also contain
/// `q`, in the same order.
pub proof fn lemma_search_monotone(t: Seq<char>, p: Seq<char>, q: Seq<char>)
    requires
        contains(q, p),
    ensures
        lines_containing(t, q) == lines_containing(t, p).filter(|l: Seq<char>| contains(l, q)),
{
    let f = |l: Seq<char>| contains(l, p);
    let g = |l: Seq<char>| contains(l, q);
    assert forall|x: Seq<char>| #[trigger] g(x) implies f(x) by {
        lemma_contains_trans(x, q, p);
    }
    lemma_filter_stronger(lines(t), f, g);
}

/// The empty pattern finds every line.
pub proof fn lemma_search_empty_pattern(t: Seq<char>)
    ensures
        lines_containing(t, Seq::<char>::empty()) == lines(t),
{
    let f = |l: Seq<char>| contains(l, Seq::<char>::empty());
    assert forall|x: Seq<char>| #[trigger] f(x) by {
        assert(x.subrange(0, 0) =~= Seq::<char>::empty());
        assert(occurs_at(x, Seq::<char>::empty(), 0));
    }
    lemma_filter_all(lines(t), f);
}

/// Ignoring case, the pattern counts only through its lowercase form: two
/// patterns that lowercase alike find the same pieces.
pub proof fn lemma_case_insensitive_by_lowercase(t: Seq<char>, p: Seq<char>, q: Seq<char>)
    requires
        lowercase(p) == lowercase(q),
    ensures
        pieces_containing_ignoring_case(t, p) == pieces_containing_ignoring_case(t, q),
{
    let f = |l: Seq<char>| contains(lowercase(l), lowercase(p));
    let g = |l: Seq<char>| contains(lowercase(l), lowercase(q));
    assert(f =~= g);
}

} // verus!
