//! Character-level helpers on strings, with their specifications: whitespace,
//! words, trimming, lines and substring search.
use vstd::prelude::*;
use vstd::std_specs::iter::IteratorSpec;

verus! {

broadcast use vstd::string::group_string_axioms;

/// The strings of `v`, each taken as its characters.
pub open spec fn string_views(v: Seq<String>) -> Seq<Seq<char>> {
    v.map_values(|x: String| x@)
}

/// The string slices of `v`, each taken as its characters.
pub open spec fn str_views<'a>(v: Seq<&'a str>) -> Seq<Seq<char>> {
    v.map_values(|x: &'a str| x@)
}

/// The characters of `s`, in order.
pub fn chars_of(s: &str) -> (v: Vec<char>)
    ensures
        v@ == s@,
{
    let mut v: Vec<char> = Vec::new();
    for c in it: s.chars()
        invariant
            v@ == it.seq().take(it.index() as int),
            it.seq() == s@,
    {
        v.push(c);
    }
    v
}

/// Whether `a` and `b` hold the same characters.
pub fn str_eq(a: &str, b: &str) -> (r: bool)
    ensures
        r == (a@ == b@),
{
    let x = chars_of(a);
    let y = chars_of(b);
    if x.len() != y.len() {
        return false;
    }
    let n = x.len();
    for i in 0..n
        invariant
            n == x@.len(),
            n == y@.len(),
            x@ == a@,
            y@ == b@,
            forall|j: int| 0 <= j < i ==> x@[j] == y@[j],
    {
        if x[i] != y[i] {
            assert(x@[i as int] != y@[i as int]);
            return false;
        }
    }
    assert(x@ =~= y@);
    true
}

/// Unicode White_Space, the set of characters that `char::is_whitespace`
/// accepts.
pub open spec fn is_space(c: char) -> bool {
    ||| ('\u{9}' <= c && c <= '\u{d}')
    ||| c == ' '
    ||| c == '\u{85}'
    ||| c == '\u{a0}'
    ||| c == '\u{1680}'
    ||| ('\u{2000}' <= c && c <= '\u{200a}')
    ||| c == '\u{2028}'
    ||| c == '\u{2029}'
    ||| c == '\u{202f}'
    ||| c == '\u{205f}'
    ||| c == '\u{3000}'
}

/// Whether `c` is a whitespace character.
pub fn is_whitespace(c: char) -> (r: bool)
    ensures
        r == is_space(c),
{
    ('\u{9}' <= c && c <= '\u{d}') || c == ' ' || c == '\u{85}' || c == '\u{a0}' || c
        == '\u{1680}' || ('\u{2000}' <= c && c <= '\u{200a}') || c == '\u{2028}' || c
        == '\u{2029}' || c == '\u{202f}' || c == '\u{205f}' || c == '\u{3000}'
}

/// The end of the run of non-whitespace characters of `s` that starts at `i`.
pub open spec fn word_end(s: Seq<char>, i: int) -> int
    decreases s.len() - i,
{
    if 0 <= i < s.len() && !is_space(s[i]) {
        word_end(s, i + 1)
    } else {
        i
    }
}

/// The whitespace-separated words of `s` from position `i` on.
pub open spec fn words_from(s: Seq<char>, i: int) -> Seq<Seq<char>>
    decreases s.len() - i,
{
    if i < 0 || i >= s.len() {
        seq![]
    } else if is_space(s[i]) {
        words_from(s, i + 1)
    } else {
        proof {
            lemma_word_end_bounds(s, i);
        }
        seq![s.subrange(i, word_end(s, i))] + words_from(s, word_end(s, i))
    }
}

/// The words of `s`: its maximal runs of non-whitespace characters, in order.
pub open spec fn words(s: Seq<char>) -> Seq<Seq<char>> {
    words_from(s, 0)
}

pub proof fn lemma_word_end_bounds(s: Seq<char>, i: int)
    requires
        0 <= i <= s.len(),
    ensures
        i <= word_end(s, i) <= s.len(),
        0 <= i < s.len() && !is_space(s[i]) ==> i < word_end(s, i),
        forall|k: int| i <= k < word_end(s, i) ==> !is_space(#[trigger] s[k]),
        word_end(s, i) < s.len() ==> is_space(s[word_end(s, i)]),
    decreases s.len() - i,
{
    if i < s.len() && !is_space(s[i]) {
        lemma_word_end_bounds(s, i + 1);
    }
}

/// Finds where the word that starts at `i` ends.
fn find_word_end(s: &Vec<char>, i: usize) -> (e: usize)
    requires
        i <= s@.len(),
    ensures
        e == word_end(s@, i as int),
{
    let mut k = i;
    while k < s.len() && !is_whitespace(s[k])
        invariant
            i <= k <= s@.len(),
            word_end(s@, k as int) == word_end(s@, i as int),
        decreases s@.len() - k,
    {
        k = k + 1;
    }
    k
}

/// The words of `s`, as `str::split_whitespace` yields them.
pub fn split_whitespace(s: &str) -> (v: Vec<String>)
    ensures
        string_views(v@) == words(s@),
{
    let cs = chars_of(s);
    let mut v: Vec<String> = Vec::new();
    let mut i: usize = 0;
    while i < cs.len()
        invariant
            cs@ == s@,
            i <= cs@.len(),
            string_views(v@) + words_from(s@, i as int) == words(s@),
        decreases cs@.len() - i,
    {
        if is_whitespace(cs[i]) {
            i = i + 1;
        } else {
            let e = find_word_end(&cs, i);
            proof {
                lemma_word_end_bounds(s@, i as int);
            }
            let w = String::from_str(s.substring_char(i, e));
            let ghost old_v = v@;
            v.push(w);
            assert(string_views(v@) =~= string_views(old_v).push(s@.subrange(i as int, e as int)));
            assert(string_views(v@) + words_from(s@, e as int) =~= string_views(old_v)
                + words_from(s@, i as int));
            i = e;
        }
    }
    v
}

/// The number of words of `s`.
pub fn count_words(s: &str) -> (n: usize)
    ensures
        n == words(s@).len(),
{
    let cs = chars_of(s);
    let mut n: usize = 0;
    let mut i: usize = 0;
    proof {
        lemma_words_from_len(s@, 0);
    }
    while i < cs.len()
        invariant
            cs@ == s@,
            i <= cs@.len(),
            n + words_from(s@, i as int).len() == words(s@).len(),
            words(s@).len() <= s@.len(),
            n <= i,
        decreases cs@.len() - i,
    {
        if is_whitespace(cs[i]) {
            i = i + 1;
        } else {
            let e = find_word_end(&cs, i);
            proof {
                lemma_word_end_bounds(s@, i as int);
            }
            n = n + 1;
            i = e;
        }
    }
    n
}

pub proof fn lemma_words_from_len(s: Seq<char>, i: int)
    requires
        0 <= i <= s.len(),
    ensures
        words_from(s, i).len() <= s.len() - i,
    decreases s.len() - i,
{
    if i < s.len() {
        if is_space(s[i]) {
            lemma_words_from_len(s, i + 1);
        } else {
            lemma_word_end_bounds(s, i);
            lemma_words_from_len(s, word_end(s, i));
        }
    }
}

/// The end of the line of `s` that starts at `i`: the position of the next
/// newline, or the length of `s` when there is none.
pub open spec fn line_end(s: Seq<char>, i: int) -> int
    decreases s.len() - i,
{
    if 0 <= i < s.len() && s[i] != '\n' {
        line_end(s, i + 1)
    } else {
        i
    }
}

pub proof fn lemma_line_end_bounds(s: Seq<char>, i: int)
    requires
        0 <= i <= s.len(),
    ensures
        i <= line_end(s, i) <= s.len(),
        forall|k: int| i <= k < line_end(s, i) ==> #[trigger] s[k] != '\n',
        line_end(s, i) < s.len() ==> s[line_end(s, i)] == '\n',
    decreases s.len() - i,
{
    if i < s.len() && s[i] != '\n' {
        lemma_line_end_bounds(s, i + 1);
    }
}

/// `t` without the carriage return it ends with, if any.
pub open spec fn strip_cr(t: Seq<char>) -> Seq<char> {
    if t.len() > 0 && t.last() == '\r' {
        t.drop_last()
    } else {
        t
    }
}

/// The lines of `s` from position `i` on, as `str::lines` yields them: a
/// line ends at a newline, which is dropped together with a carriage return
/// just before it; a last line with no newline is kept whole; nothing
/// follows a final newline.
pub open spec fn lines_from(s: Seq<char>, i: int) -> Seq<Seq<char>>
    decreases s.len() - i,
{
    if i < 0 || i >= s.len() {
        seq![]
    } else {
        proof {
            lemma_line_end_bounds(s, i);
        }
        if line_end(s, i) < s.len() {
            seq![strip_cr(s.subrange(i, line_end(s, i)))] + lines_from(s, line_end(s, i) + 1)
        } else {
            seq![s.subrange(i, s.len() as int)]
        }
    }
}

/// The lines of `s`, as `str::lines` yields them.
pub open spec fn lines(s: Seq<char>) -> Seq<Seq<char>> {
    lines_from(s, 0)
}

/// The pieces of `s` between newlines from position `i` on, as
/// `str::split('\n')` yields them: every newline ends a piece, and the text
/// after the last newline, empty or not, is the last piece.
pub open spec fn pieces_from(s: Seq<char>, i: int) -> Seq<Seq<char>>
    decreases s.len() + 1 - i,
{
    if i < 0 || i > s.len() {
        seq![]
    } else {
        proof {
            lemma_line_end_bounds(s, i);
        }
        if line_end(s, i) < s.len() {
            seq![s.subrange(i, line_end(s, i))] + pieces_from(s, line_end(s, i) + 1)
        } else {
            seq![s.subrange(i, s.len() as int)]
        }
    }
}

/// The pieces of `s` between newlines, as `str::split('\n')` yields them.
pub open spec fn split_newlines(s: Seq<char>) -> Seq<Seq<char>> {
    pieces_from(s, 0)
}

/// Finds where the line that starts at `i` ends.
pub fn find_line_end(s: &Vec<char>, i: usize) -> (e: usize)
    requires
        i <= s@.len(),
    ensures
        e == line_end(s@, i as int),
{
    let mut k = i;
    while k < s.len() && s[k] != '\n'
        invariant
            i <= k <= s@.len(),
            line_end(s@, k as int) == line_end(s@, i as int),
        decreases s@.len() - k,
    {
        k = k + 1;
    }
    k
}

/// `needle` occurs in `hay` at position `k`.
pub open spec fn occurs_at(hay: Seq<char>, needle: Seq<char>, k: int) -> bool {
    hay.subrange(k, k + needle.len()) == needle
}

/// `needle` occurs somewhere in `hay`, as `str::contains` tests.
pub open spec fn contains(hay: Seq<char>, needle: Seq<char>) -> bool {
    exists|k: int| 0 <= k && k + needle.len() <= hay.len() && #[trigger] occurs_at(hay, needle, k)
}

/// Whether `needle` occurs in `hay` at position `k`.
fn occurs_here(hay: &Vec<char>, k: usize, needle: &Vec<char>) -> (r: bool)
    requires
        k + needle@.len() <= hay@.len(),
    ensures
        r == occurs_at(hay@, needle@, k as int),
{
    let m = needle.len();
    for j in 0..m
        invariant
            m == needle@.len(),
            k + m <= hay.len(),
            forall|t: int| 0 <= t < j ==> hay@[k + t] == needle@[t],
    {
        assert(k + j < hay@.len());
        if hay[k + j] != needle[j] {
            assert(hay@.subrange(k as int, k + m)[j as int] != needle@[j as int]);
            return false;
        }
    }
    assert(hay@.subrange(k as int, k + m) =~= needle@);
    true
}

/// Whether `needle` occurs in the part of `hay` from `lo` to `hi`.
pub fn contains_in(hay: &Vec<char>, lo: usize, hi: usize, needle: &Vec<char>) -> (r: bool)
    requires
        lo <= hi <= hay@.len(),
    ensures
        r == contains(hay@.subrange(lo as int, hi as int), needle@),
{
    let ghost part = hay@.subrange(lo as int, hi as int);
    let m = needle.len();
    if m > hi - lo {
        assert forall|k: int|
            0 <= k && k + needle@.len() <= part.len() implies !occurs_at(part, needle@, k) by {}
        return false;
    }
    if m == 0 {
        assert(part.subrange(0, 0) =~= needle@);
        assert(occurs_at(part, needle@, 0));
        return true;
    }
    let last = hi - m;
    let mut k = lo;
    while k <= last
        invariant
            lo <= k <= last + 1,
            last + m == hi,
            m == needle@.len(),
            m >= 1,
            hi <= hay@.len(),
            part == hay@.subrange(lo as int, hi as int),
            forall|t: int| 0 <= t < k - lo ==> !#[trigger] occurs_at(part, needle@, t),
        decreases last + 1 - k,
    {
        let found = occurs_here(hay, k, needle);
        assert(part.subrange(k - lo, k - lo + m) =~= hay@.subrange(k as int, k + m));
        if found {
            assert(occurs_at(part, needle@, k - lo));
            return true;
        }
        k = k + 1;
    }
    false
}

proof fn lemma_word_end_shift(s: Seq<char>, t: Seq<char>, j: int)
    requires
        0 <= j <= t.len(),
    ensures
        word_end(s + t, s.len() + j) == s.len() + word_end(t, j),
    decreases t.len() - j,
{
    if j < t.len() {
        assert((s + t)[s.len() + j] == t[j]);
        if !is_space(t[j]) {
            lemma_word_end_shift(s, t, j + 1);
        }
    }
}

pub proof fn lemma_words_from_shift(s: Seq<char>, t: Seq<char>, j: int)
    requires
        0 <= j <= t.len(),
    ensures
        words_from(s + t, s.len() + j) == words_from(t, j),
    decreases t.len() - j,
{
    if j < t.len() {
        assert((s + t)[s.len() + j] == t[j]);
        if is_space(t[j]) {
            lemma_words_from_shift(s, t, j + 1);
        } else {
            lemma_word_end_shift(s, t, j);
            lemma_word_end_bounds(t, j);
            lemma_words_from_shift(s, t, word_end(t, j));
            assert((s + t).subrange(s.len() + j, s.len() + word_end(t, j)) =~= t.subrange(
                j,
                word_end(t, j),
            ));
        }
    }
}

proof fn lemma_word_end_concat(s: Seq<char>, t: Seq<char>, i: int)
    requires
        0 <= i <= s.len(),
        t.len() == 0 || is_space(t[0]),
    ensures
        word_end(s + t, i) == word_end(s, i),
    decreases s.len() - i,
{
    if i < s.len() {
        assert((s + t)[i] == s[i]);
        if !is_space(s[i]) {
            lemma_word_end_concat(s, t, i + 1);
        }
    } else if t.len() > 0 {
        assert((s + t)[i] == t[0]);
    }
}

proof fn lemma_words_from_concat(s: Seq<char>, t: Seq<char>, i: int)
    requires
        0 <= i <= s.len(),
        t.len() == 0 || is_space(t[0]),
    ensures
        words_from(s + t, i) == words_from(s, i) + words(t),
    decreases s.len() - i,
{
    if i == s.len() {
        lemma_words_from_shift(s, t, 0);
        assert(words_from(s, i) + words(t) =~= words(t));
    } else {
        assert((s + t)[i] == s[i]);
        if is_space(s[i]) {
            lemma_words_from_concat(s, t, i + 1);
        } else {
            lemma_word_end_concat(s, t, i);
            lemma_word_end_bounds(s, i);
            let e = word_end(s, i);
            lemma_words_from_concat(s, t, e);
            assert((s + t).subrange(i, e) =~= s.subrange(i, e));
            assert(words_from(s + t, i) =~= words_from(s, i) + words(t));
        }
    }
}

/// Splitting into words commutes with concatenation where the second part
/// starts with whitespace.
pub proof fn lemma_words_concat(s: Seq<char>, t: Seq<char>)
    requires
        t.len() == 0 || is_space(t[0]),
    ensures
        words(s + t) == words(s) + words(t),
{
    lemma_words_from_concat(s, t, 0);
}

pub proof fn lemma_words_from_spaces(s: Seq<char>, i: int, k: int)
    requires
        0 <= i <= k <= s.len(),
        forall|m: int| i <= m < k ==> is_space(#[trigger] s[m]),
    ensures
        words_from(s, i) == words_from(s, k),
    decreases k - i,
{
    if i < k {
        lemma_words_from_spaces(s, i + 1, k);
    }
}

/// A text of whitespace only has no words.
pub proof fn lemma_words_all_space(s: Seq<char>)
    requires
        forall|m: int| 0 <= m < s.len() ==> is_space(#[trigger] s[m]),
    ensures
        words(s) == Seq::<Seq<char>>::empty(),
{
    lemma_words_from_spaces(s, 0, s.len() as int);
}

/// A non-empty text with no whitespace is one word.
pub proof fn lemma_words_single(w: Seq<char>)
    requires
        w.len() > 0,
        forall|m: int| 0 <= m < w.len() ==> !is_space(#[trigger] w[m]),
    ensures
        words(w) == seq![w],
{
    lemma_word_end_full(w, 0);
    assert(!is_space(w[0]));
    assert(w.subrange(0, w.len() as int) =~= w);
    assert(words_from(w, w.len() as int) =~= Seq::<Seq<char>>::empty());
    assert(words(w) =~= seq![w]);
}

proof fn lemma_word_end_full(w: Seq<char>, i: int)
    requires
        0 <= i <= w.len(),
        forall|m: int| 0 <= m < w.len() ==> !is_space(#[trigger] w[m]),
    ensures
        word_end(w, i) == w.len(),
    decreases w.len() - i,
{
    if i < w.len() {
        lemma_word_end_full(w, i + 1);
    }
}

/// The first position at or after `i` that is not whitespace (or the
/// length of `s`).
pub open spec fn trim_start(s: Seq<char>, i: int) -> int
    decreases s.len() - i,
{
    if 0 <= i < s.len() && is_space(s[i]) {
        trim_start(s, i + 1)
    } else {
        i
    }
}

/// The end of `s` up to `j` without its trailing whitespace, not going below
/// `lo`.
pub open spec fn trim_end(s: Seq<char>, lo: int, j: int) -> int
    decreases j - lo,
{
    if lo < j && is_space(s[j - 1]) {
        trim_end(s, lo, j - 1)
    } else {
        j
    }
}

/// `s` without its leading and trailing whitespace, as `str::trim` gives it.
pub open spec fn trimmed(s: Seq<char>) -> Seq<char> {
    let a = trim_start(s, 0);
    s.subrange(a, trim_end(s, a, s.len() as int))
}

proof fn lemma_trim_start(s: Seq<char>, i: int)
    requires
        0 <= i <= s.len(),
    ensures
        i <= trim_start(s, i) <= s.len(),
        forall|m: int| i <= m < trim_start(s, i) ==> is_space(#[trigger] s[m]),
    decreases s.len() - i,
{
    if i < s.len() && is_space(s[i]) {
        lemma_trim_start(s, i + 1);
    }
}

proof fn lemma_trim_end(s: Seq<char>, lo: int, j: int)
    requires
        0 <= lo <= j <= s.len(),
    ensures
        lo <= trim_end(s, lo, j) <= j,
        forall|m: int| trim_end(s, lo, j) <= m < j ==> is_space(#[trigger] s[m]),
    decreases j - lo,
{
    if lo < j && is_space(s[j - 1]) {
        lemma_trim_end(s, lo, j - 1);
    }
}

/// Trimming a text keeps its words.
pub proof fn lemma_words_trimmed(s: Seq<char>)
    ensures
        words(trimmed(s)) == words(s),
{
    let a = trim_start(s, 0);
    lemma_trim_start(s, 0);
    let b = trim_end(s, a, s.len() as int);
    lemma_trim_end(s, a, s.len() as int);
    let p = s.take(a);
    let m = s.subrange(a, b);
    let q = s.subrange(b, s.len() as int);
    assert(s =~= p + (m + q));
    lemma_words_from_spaces(s, 0, a);
    lemma_words_from_shift(p, m + q, 0);
    assert(forall|k: int| 0 <= k < q.len() ==> q[k] == s[b + k]);
    lemma_words_concat(m, q);
    lemma_words_all_space(q);
    assert(words(m) + words(q) =~= words(m));
}

/// `s` without its leading and trailing whitespace.
pub fn trim_str<'a>(s: &'a str) -> (r: &'a str)
    ensures
        r@ == trimmed(s@),
{
    let cs = chars_of(s);
    let mut a: usize = 0;
    while a < cs.len() && is_whitespace(cs[a])
        invariant
            cs@ == s@,
            a <= cs@.len(),
            trim_start(s@, a as int) == trim_start(s@, 0),
        decreases cs@.len() - a,
    {
        a = a + 1;
    }
    let mut b: usize = cs.len();
    while a < b && is_whitespace(cs[b - 1])
        invariant
            cs@ == s@,
            a <= b <= cs@.len(),
            trim_end(s@, a as int, b as int) == trim_end(s@, a as int, s@.len() as int),
        decreases b,
    {
        b = b - 1;
    }
    s.substring_char(a, b)
}

/// Names what `str::to_lowercase` returns for the characters of a string.
pub uninterp spec fn lowercase(s: Seq<char>) -> Seq<char>;

/// Calls `str::to_lowercase`. Claimed: the result is `lowercase` of the
/// characters of `s`, a function of them alone (Unicode's lowercase mapping,
/// which depends on no locale).
#[verifier::external_body]
pub(crate) fn to_lowercase(s: &str) -> (r: String)
    ensures
        r@ == lowercase(s@),
{
    s.to_lowercase()
}

} // verus!
