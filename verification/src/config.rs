//! The command line: the pattern, the files, and the options `-i`,
//! `--color`, `-A n` and `-B n`.
use vstd::prelude::*;
use crate::matcher::{regex_compiles, Matcher};
use crate::text::{
    chars_of, count_words, is_space, lemma_words_all_space, lemma_words_concat, lemma_words_from_shift, lemma_words_from_spaces,
    lemma_words_single, lemma_words_trimmed, split_whitespace, str_eq, string_views, trim_str,
    trimmed, words,
};

verus! {

/// `s` starts with a dash.
pub open spec fn starts_with_dash(s: Seq<char>) -> bool {
    s.len() > 0 && s[0] == '-'
}

/// `s` is an option that takes the argument after it as its value.
pub open spec fn is_value_option(s: Seq<char>) -> bool {
    s == "-A"@ || s == "-B"@
}

/// Tells whether `stringa` is a positional argument: it does not start with a
/// dash and is not the value of the option before it (`*expect_value` says
/// whether such an option came just before). Sets `*expect_value` to whether
/// `stringa` is an option that takes a value.
pub fn spot_parameters_and_values(stringa: &String, expect_value: &mut bool) -> (r: bool)
    ensures
        r == (!starts_with_dash(stringa@) && !*old(expect_value)),
        *final(expect_value) == (stringa@ == "-A"@ || stringa@ == "-B"@),
{
    let cs = chars_of(stringa.as_str());
    let dash = cs.len() > 0 && cs[0] == '-';
    let res = !dash && !*expect_value;
    if *expect_value {
        *expect_value = false;
    }
    *expect_value = str_eq(stringa.as_str(), "-A") || str_eq(stringa.as_str(), "-B");
    res
}

/// The positional arguments among `args`: those that do not start with a dash
/// and are not the value of a `-A` or `-B` just before them; `expect` says
/// whether the argument before `args` was such an option.
pub open spec fn positionals(args: Seq<Seq<char>>, expect: bool) -> Seq<Seq<char>>
    decreases args.len(),
{
    if args.len() == 0 {
        seq![]
    } else {
        (if !starts_with_dash(args[0]) && !expect {
            seq![args[0]]
        } else {
            seq![]
        }) + positionals(args.drop_first(), is_value_option(args[0]))
    }
}

/// Only `-A` and `-B` take the argument after them as their value: an
/// argument that does not start with a dash, and that does not come right
/// after `-A` or `-B` (or, first of all, after an option expecting its
/// value, as `expect` says), is a positional argument.
pub proof fn lemma_plain_argument_is_positional(args: Seq<Seq<char>>, expect: bool, i: int)
    requires
        0 <= i < args.len(),
        !starts_with_dash(args[i]),
        i == 0 ==> !expect,
        i > 0 ==> args[i - 1] != "-A"@ && args[i - 1] != "-B"@,
    ensures
        positionals(args, expect).contains(args[i]),
    decreases i,
{
    let head = if !starts_with_dash(args[0]) && !expect {
        seq![args[0]]
    } else {
        seq![]
    };
    let rest = positionals(args.drop_first(), is_value_option(args[0]));
    assert(positionals(args, expect) == head + rest);
    if i == 0 {
        assert((head + rest)[0] == args[0]);
    } else {
        if i == 1 {
            assert(!is_value_option(args[0]));
        }
        assert(args.drop_first()[i - 1] == args[i]);
        if i > 1 {
            assert(args.drop_first()[i - 2] == args[i - 1]);
        }
        lemma_plain_argument_is_positional(args.drop_first(), is_value_option(args[0]), i - 1);
        let k = choose|k: int| 0 <= k < rest.len() && rest[k] == args[i];
        assert((head + rest)[head.len() + k] == args[i]);
    }
}

/// Every positional argument is one of the arguments, and none starts with a
/// dash.
pub proof fn lemma_positionals_are_plain(args: Seq<Seq<char>>, expect: bool)
    ensures
        forall|k: int|
            0 <= k < positionals(args, expect).len() ==> args.contains(
                #[trigger] positionals(args, expect)[k],
            ) && !starts_with_dash(positionals(args, expect)[k]),
    decreases args.len(),
{
    if args.len() > 0 {
        let head = if !starts_with_dash(args[0]) && !expect {
            seq![args[0]]
        } else {
            seq![]
        };
        let tail = args.drop_first();
        let rest = positionals(tail, is_value_option(args[0]));
        lemma_positionals_are_plain(tail, is_value_option(args[0]));
        let ps = positionals(args, expect);
        assert(ps == head + rest);
        assert forall|k: int| 0 <= k < ps.len() implies args.contains(#[trigger] ps[k])
            && !starts_with_dash(ps[k]) by {
            if k < head.len() {
                assert(ps[k] == args[0]);
            } else {
                assert(ps[k] == rest[k - head.len()]);
                let m = choose|m: int| 0 <= m < tail.len() && tail[m] == rest[k - head.len()];
                assert(args[m + 1] == tail[m]);
            }
        }
    }
}

/// The arguments after the first, the program name.
pub open spec fn after_first(args: Seq<Seq<char>>) -> Seq<Seq<char>> {
    if args.len() == 0 {
        seq![]
    } else {
        args.drop_first()
    }
}

/// The positional arguments of the command line `args`, the program name
/// (the first argument) left out.
pub fn positional_args(args: &Vec<String>) -> (r: Vec<String>)
    ensures
        string_views(r@) == positionals(after_first(string_views(args@)), false),
{
    let ghost all = string_views(args@);
    let mut r: Vec<String> = Vec::new();
    let mut expect = false;
    if args.len() == 0 {
        return r;
    }
    let mut i: usize = 1;
    assert(all.subrange(1, all.len() as int) =~= all.drop_first());
    while i < args.len()
        invariant
            all == string_views(args@),
            1 <= i <= args@.len(),
            string_views(r@) + positionals(all.subrange(i as int, all.len() as int), expect)
                == positionals(after_first(all), false),
        decreases args@.len() - i,
    {
        let ghost rest = all.subrange(i as int, all.len() as int);
        let ghost before = r@;
        let ghost expect_before = expect;
        let arg = &args[i];
        assert(rest[0] == arg@);
        assert(rest.drop_first() =~= all.subrange(i + 1, all.len() as int));
        if spot_parameters_and_values(arg, &mut expect) {
            r.push(arg.clone());
            assert(string_views(r@) =~= string_views(before) + seq![arg@]);
        } else {
            assert(string_views(r@) =~= string_views(before));
        }
        assert(positionals(rest, expect_before) == (if !starts_with_dash(rest[0])
            && !expect_before {
            seq![rest[0]]
        } else {
            seq![]
        }) + positionals(rest.drop_first(), is_value_option(rest[0])));
        i = i + 1;
    }
    assert(all.subrange(i as int, all.len() as int) =~= Seq::<Seq<char>>::empty());
    r
}

/// `c` is an ASCII decimal digit.
pub open spec fn is_digit(c: char) -> bool {
    '0' <= c && c <= '9'
}

/// The number that the decimal digits `s` write.
pub open spec fn decimal_value(s: Seq<char>) -> int
    decreases s.len(),
{
    if s.len() == 0 {
        0
    } else {
        decimal_value(s.drop_last()) * 10 + (s.last() as int - '0' as int)
    }
}

/// The digits of `s`: `s` without a leading plus sign.
pub open spec fn unsigned_digits(s: Seq<char>) -> Seq<char> {
    if s.len() > 0 && s[0] == '+' {
        s.drop_first()
    } else {
        s
    }
}

/// `s` is what `str::parse::<usize>` accepts: an optional plus sign, then
/// one decimal digit or more, whose value fits in a `usize`.
pub open spec fn is_usize_text(s: Seq<char>) -> bool {
    let d = unsigned_digits(s);
    &&& d.len() > 0
    &&& forall|i: int| 0 <= i < d.len() ==> is_digit(#[trigger] d[i])
    &&& decimal_value(d) <= usize::MAX
}

proof fn lemma_decimal_grows(s: Seq<char>, k: int)
    requires
        0 <= k <= s.len(),
        forall|i: int| 0 <= i < s.len() ==> is_digit(#[trigger] s[i]),
    ensures
        0 <= decimal_value(s.take(k)) <= decimal_value(s),
    decreases s.len(),
{
    if s.len() > 0 {
        if k == s.len() {
            assert(s.take(k) =~= s);
        } else {
            assert(forall|i: int| 0 <= i < s.drop_last().len() ==> s.drop_last()[i] == s[i]);
            lemma_decimal_grows(s.drop_last(), k);
            assert(s.drop_last().take(k) =~= s.take(k));
        }
        lemma_decimal_grows(s.drop_last(), s.len() - 1);
        assert(s.drop_last().take(s.len() - 1) =~= s.drop_last());
    }
}

/// Reads `s` as a `usize` in decimal, as `str::parse::<usize>` does.
pub fn parse_usize(s: &str) -> (r: Option<usize>)
    ensures
        r is Some == is_usize_text(s@),
        r matches Some(v) ==> v == decimal_value(unsigned_digits(s@)),
{
    let cs = chars_of(s);
    let ghost d = unsigned_digits(s@);
    let start: usize = if cs.len() > 0 && cs[0] == '+' {
        1
    } else {
        0
    };
    assert(d =~= cs@.subrange(start as int, cs@.len() as int));
    if start >= cs.len() {
        return None;
    }
    let mut acc: usize = 0;
    let mut i: usize = start;
    while i < cs.len()
        invariant
            cs@ == s@,
            d == unsigned_digits(s@),
            d == cs@.subrange(start as int, cs@.len() as int),
            start <= i <= cs@.len(),
            forall|k: int| 0 <= k < i - start ==> is_digit(#[trigger] d[k]),
            acc == decimal_value(d.take(i - start)),
        decreases cs@.len() - i,
    {
        let c = cs[i];
        let ghost k = i - start;
        if !('0' <= c && c <= '9') {
            assert(!is_digit(d[k]));
            return None;
        }
        let digit: usize = (c as u32 - '0' as u32) as usize;
        assert(d.take(k + 1).drop_last() =~= d.take(k));
        assert(d.take(k + 1).last() == c);
        match acc.checked_mul(10) {
            Some(m) => {
                match m.checked_add(digit) {
                    Some(v) => {
                        acc = v;
                    },
                    None => {
                        proof {
                            if forall|j: int| 0 <= j < d.len() ==> is_digit(#[trigger] d[j]) {
                                lemma_decimal_grows(d, k + 1);
                            }
                        }
                        return None;
                    },
                }
            },
            None => {
                proof {
                    if forall|j: int| 0 <= j < d.len() ==> is_digit(#[trigger] d[j]) {
                        lemma_decimal_grows(d, k + 1);
                    }
                }
                return None;
            },
        }
        i = i + 1;
    }
    assert(d.take(d.len() as int) =~= d);
    Some(acc)
}

/// A type that an option's value can be read as.
pub trait OptionValue: Sized {
    /// `s` can be read as a value of this type.
    spec fn readable(s: Seq<char>) -> bool;

    /// `v` is what `s` reads as.
    spec fn reads_as(s: Seq<char>, v: Self) -> bool;

    /// Reads `s`, or `None` when it cannot be read.
    fn parse_value(s: &str) -> (r: Option<Self>)
        ensures
            r is Some == Self::readable(s@),
            r matches Some(v) ==> Self::reads_as(s@, v),
    ;
}

impl OptionValue for usize {
    open spec fn readable(s: Seq<char>) -> bool {
        is_usize_text(s)
    }

    open spec fn reads_as(s: Seq<char>, v: usize) -> bool {
        v == decimal_value(unsigned_digits(s))
    }

    fn parse_value(s: &str) -> (r: Option<usize>) {
        parse_usize(s)
    }
}

impl OptionValue for String {
    open spec fn readable(s: Seq<char>) -> bool {
        true
    }

    open spec fn reads_as(s: Seq<char>, v: String) -> bool {
        v@ == s
    }

    fn parse_value(s: &str) -> (r: Option<String>) {
        Some(String::from_str(s))
    }
}

/// Why an option's value could not be had.
#[derive(Debug, PartialEq, Eq)]
pub enum OptionError {
    /// The argument after the option cannot be read as its value.
    InvalidValue { value: String, option: String },
}

/// The position of the first argument from `i` on that equals `t`, or the
/// number of arguments when there is none.
pub open spec fn first_index(args: Seq<Seq<char>>, t: Seq<char>, i: int) -> int
    decreases args.len() - i,
{
    if i < 0 || i >= args.len() {
        args.len() as int
    } else if args[i] == t {
        i
    } else {
        first_index(args, t, i + 1)
    }
}

pub proof fn lemma_first_index(args: Seq<Seq<char>>, t: Seq<char>, i: int)
    requires
        0 <= i <= args.len(),
    ensures
        i <= first_index(args, t, i) <= args.len(),
        first_index(args, t, i) < args.len() ==> args[first_index(args, t, i)] == t,
        forall|k: int| i <= k < first_index(args, t, i) ==> #[trigger] args[k] != t,
    decreases args.len() - i,
{
    if i < args.len() && args[i] != t {
        lemma_first_index(args, t, i + 1);
    }
}

/// Some argument follows the first occurrence of option `t` in `args`, if
/// there is one.
pub open spec fn value_follows(args: Seq<Seq<char>>, t: Seq<char>) -> bool {
    let k = first_index(args, t, 0);
    k < args.len() ==> k + 1 < args.len()
}

/// Whether some argument follows the first occurrence of option `t` in
/// `args`, if there is one.
pub fn follows_value(args: &Vec<String>, t: &str) -> (r: bool)
    ensures
        r == value_follows(string_views(args@), t@),
{
    let ghost all = string_views(args@);
    let mut i: usize = 0;
    proof {
        lemma_first_index(all, t@, 0);
    }
    while i < args.len()
        invariant
            all == string_views(args@),
            0 <= i <= all.len(),
            first_index(all, t@, i as int) == first_index(all, t@, 0),
        decreases all.len() - i,
    {
        if str_eq(args[i].as_str(), t) {
            assert(all[i as int] == t@);
            return i + 1 < args.len();
        }
        i = i + 1;
    }
    true
}

/// What looking for option `t` among `args` gives, as a specification: no
/// value when `t` is not there; for its first occurrence, the argument after
/// it read as a `T`, or the error saying why that fails. (An option with no
/// argument after it is not looked for: see `value_follows`.)
pub open spec fn option_value_spec<T: OptionValue>(
    args: Seq<Seq<char>>,
    t: Seq<char>,
    r: Result<Option<T>, OptionError>,
) -> bool {
    let k = first_index(args, t, 0);
    if k >= args.len() {
        r == Ok::<Option<T>, OptionError>(None)
    } else if k + 1 >= args.len() {
        false
    } else if T::readable(args[k + 1]) {
        r matches Ok(Some(v)) && T::reads_as(args[k + 1], v)
    } else {
        r matches Err(OptionError::InvalidValue { value, option }) && value@ == args[k + 1]
            && option@ == t
    }
}

/// Looks for the option `tosearch` among `iterator`; at its first occurrence,
/// reads the argument after it as a `T`. An option must be followed by its
/// value.
pub fn search_string_interator<T: OptionValue>(iterator: &Vec<String>, tosearch: &str) -> (r:
    Result<Option<T>, OptionError>)
    requires
        value_follows(string_views(iterator@), tosearch@),
    ensures
        option_value_spec(string_views(iterator@), tosearch@, r),
{
    let ghost args = string_views(iterator@);
    let mut i: usize = 0;
    proof {
        lemma_first_index(args, tosearch@, 0);
    }
    while i < iterator.len()
        invariant
            args == string_views(iterator@),
            0 <= i <= args.len(),
            first_index(args, tosearch@, i as int) == first_index(args, tosearch@, 0),
            value_follows(args, tosearch@),
        decreases args.len() - i,
    {
        if str_eq(iterator[i].as_str(), tosearch) {
            assert(args[i as int] == tosearch@);
            let valarg = &iterator[i + 1];
            assert(args[i + 1] == valarg@);
            return match T::parse_value(valarg.as_str()) {
                Some(v) => Ok(Some(v)),
                None => Err(
                    OptionError::InvalidValue {
                        value: valarg.clone(),
                        option: String::from_str(tosearch),
                    },
                ),
            };
        }
        i = i + 1;
    }
    Ok(None)
}

/// The option `t` is either absent from `args` or followed, at its first
/// occurrence, by a number.
pub open spec fn option_ok(args: Seq<Seq<char>>, t: Seq<char>) -> bool {
    let k = first_index(args, t, 0);
    k >= args.len() || (k + 1 < args.len() && is_usize_text(args[k + 1]))
}

/// The number that follows the first occurrence of option `t` in `args`, or
/// 0 when `t` is absent.
pub open spec fn option_number(args: Seq<Seq<char>>, t: Seq<char>) -> usize {
    let k = first_index(args, t, 0);
    if k >= args.len() {
        0
    } else {
        decimal_value(unsigned_digits(args[k + 1])) as usize
    }
}

/// The path text made of the file arguments: a space, then two spaces before
/// each file.
pub open spec fn joined_paths(files: Seq<Seq<char>>) -> Seq<char>
    decreases files.len(),
{
    if files.len() == 0 {
        seq![' ']
    } else {
        joined_paths(files.drop_last()) + seq![' ', ' '] + files.last()
    }
}

/// The path text of a configuration with file arguments `files`: a single
/// space when there is none, the trimmed joined paths otherwise.
pub open spec fn path_of(files: Seq<Seq<char>>) -> Seq<char> {
    let j = joined_paths(files);
    if j == seq![' '] {
        j
    } else {
        trimmed(j)
    }
}

/// A file name as the command line can carry it: not empty, with no
/// whitespace.
pub open spec fn plain_name(f: Seq<char>) -> bool {
    f.len() > 0 && forall|m: int| 0 <= m < f.len() ==> !is_space(#[trigger] f[m])
}

proof fn lemma_words_joined(files: Seq<Seq<char>>)
    requires
        forall|i: int| 0 <= i < files.len() ==> plain_name(#[trigger] files[i]),
    ensures
        words(joined_paths(files)) == files,
    decreases files.len(),
{
    if files.len() == 0 {
        lemma_words_all_space(seq![' ']);
    } else {
        let init = files.drop_last();
        assert(forall|i: int| 0 <= i < init.len() ==> init[i] == files[i]);
        lemma_words_joined(init);
        let last = files.last();
        assert(plain_name(files[files.len() - 1]));
        let t = seq![' ', ' '] + last;
        assert(joined_paths(files) =~= joined_paths(init) + t);
        lemma_words_concat(joined_paths(init), t);
        lemma_words_from_spaces(t, 0, 2);
        lemma_words_from_shift(seq![' ', ' '], last, 0);
        lemma_words_single(last);
        assert(words(t) =~= seq![last]);
        assert(init.push(last) =~= files);
    }
}

/// The files named on the command line are the files searched: when every
/// file argument is a plain name, the words of the path text made from them
/// (`Config::files`, `Config::how_many_files`) are those arguments, in
/// order.
pub proof fn lemma_named_files_searched(files: Seq<Seq<char>>)
    requires
        forall|i: int| 0 <= i < files.len() ==> plain_name(#[trigger] files[i]),
    ensures
        words(path_of(files)) == files,
{
    lemma_words_joined(files);
    lemma_words_trimmed(joined_paths(files));
}

/// With no file argument, the input is read from stdin.
pub proof fn lemma_no_file_reads_stdin()
    ensures
        path_of(Seq::<Seq<char>>::empty()) == " "@,
{
    reveal_strlit(" ");
    assert(" "@ =~= seq![' ']);
}

/// Reading from stdin, there is no file to search.
pub proof fn lemma_stdin_has_no_file(path: Seq<char>)
    requires
        path == " "@,
    ensures
        words(path).len() == 0,
{
    reveal_strlit(" ");
    assert(path =~= seq![' ']);
    lemma_words_all_space(path);
}

/// What a configuration holds.
pub struct ConfigView {
    pub pattern: Seq<char>,
    pub path: Seq<char>,
    pub ignore_case: bool,
    pub color: bool,
    pub afterlines: usize,
    pub beforelines: usize,
}

/// The settings of a search: the pattern, the files (as one text, separated
/// by whitespace; a single space when the input is read from stdin),
/// whether case is ignored, whether matches are colored, and the number of
/// context lines after and before each match.
pub struct Config {
    pattern: String,
    path: String,
    ignore_case: bool,
    color: bool,
    afterlines: usize,
    beforelines: usize,
}

impl View for Config {
    type V = ConfigView;

    closed spec fn view(&self) -> ConfigView {
        ConfigView {
            pattern: self.pattern@,
            path: self.path@,
            ignore_case: self.ignore_case,
            color: self.color,
            afterlines: self.afterlines,
            beforelines: self.beforelines,
        }
    }
}

/// Why the command line could not be read.
#[derive(Debug, PartialEq, Eq)]
pub enum ConfigError {
    /// No pattern was given.
    MissingPattern,
    /// The value of `-A` or `-B` is missing or not a number.
    Option(OptionError),
}

/// Where one input of a search comes from.
#[derive(Debug, PartialEq, Eq)]
pub enum Input {
    /// The standard input.
    Stdin,
    /// The file `path`; `display` is what precedes its lines in the output
    /// (empty when it is the only file).
    File { path: String, display: String },
}

/// Whether `t` is one of `args`.
fn has_arg(args: &Vec<String>, t: &str) -> (r: bool)
    ensures
        r == string_views(args@).contains(t@),
{
    let ghost all = string_views(args@);
    for i in 0..args.len()
        invariant
            all == string_views(args@),
            forall|k: int| 0 <= k < i ==> all[k] != t@,
    {
        if str_eq(args[i].as_str(), t) {
            assert(all[i as int] == t@);
            return true;
        }
    }
    false
}

/// The pattern handed to the regular expression engine: prefixed with `(?i)`
/// when case is ignored.
pub open spec fn regex_source(c: ConfigView) -> Seq<char> {
    if c.ignore_case {
        "(?i)"@ + c.pattern
    } else {
        c.pattern
    }
}

/// The command line gives a value to each option that the reading of the
/// options reaches: when there is a pattern, `-A` is followed by an argument,
/// and so is `-B` if the value of `-A` is a number.
pub open spec fn option_values_present(args: Seq<Seq<char>>, env: Seq<Seq<char>>) -> bool {
    positionals(after_first(args), false).len() > 0 ==> value_follows(env, "-A"@) && (option_ok(
        env,
        "-A"@,
    ) ==> value_follows(env, "-B"@))
}

/// Ignoring case is the same as writing `(?i)` before the pattern: two
/// configurations that differ only in that give the same regular
/// expression, and so search alike.
pub proof fn lemma_ignore_case_is_prefix(c1: ConfigView, c2: ConfigView)
    requires
        c1.ignore_case,
        !c2.ignore_case,
        c2.pattern == "(?i)"@ + c1.pattern,
    ensures
        regex_source(c1) == regex_source(c2),
{
}

impl Config {
    /// Whether `Config::build_iterator` can read these command lines: no
    /// option it reaches lacks its value.
    pub fn option_values_given(args: &Vec<String>, env_args: &Vec<String>) -> (r: bool)
        ensures
            r == option_values_present(string_views(args@), string_views(env_args@)),
    {
        let ps = positional_args(args);
        if ps.len() == 0 {
            return true;
        }
        if !follows_value(env_args, "-A") {
            return false;
        }
        match search_string_interator::<usize>(env_args, "-A") {
            Ok(_) => follows_value(env_args, "-B"),
            Err(_) => true,
        }
    }

    /// Reads the command line. `args` is the command line, program name
    /// first; its positional arguments are the pattern, then the files.
    /// `env_args` is the command line the options are read from, and
    /// `ignore_case_var` tells whether the environment variable
    /// `IGNORE_CASE` is set. Fails when there is no pattern, or when the
    /// value of `-A` or of `-B` (tried in that order) is not a number. Each
    /// option it reaches must have an argument after it.
    pub fn build_iterator(args: &Vec<String>, env_args: &Vec<String>, ignore_case_var: bool) -> (r:
        Result<Config, ConfigError>)
        requires
            option_values_present(string_views(args@), string_views(env_args@)),
        ensures
            ({
                let ps = positionals(after_first(string_views(args@)), false);
                let env = string_views(env_args@);
                &&& (r matches Err(ConfigError::MissingPattern)) <==> ps.len() == 0
                &&& r is Ok <==> ps.len() > 0 && option_ok(env, "-A"@) && option_ok(env, "-B"@)
                &&& r matches Ok(c) ==> {
                    &&& c@.pattern == ps[0]
                    &&& c@.path == path_of(ps.drop_first())
                    &&& c@.ignore_case == (ignore_case_var || env.contains("-i"@))
                    &&& c@.color == env.contains("--color"@)
                    &&& c@.afterlines == option_number(env, "-A"@)
                    &&& c@.beforelines == option_number(env, "-B"@)
                }
                &&& r matches Err(ConfigError::Option(e)) ==> if !option_ok(env, "-A"@) {
                    option_value_spec::<usize>(env, "-A"@, Err(e))
                } else {
                    option_value_spec::<usize>(env, "-B"@, Err(e))
                }
            }),
    {
        let ghost env = string_views(env_args@);
        let ps = positional_args(args);
        if ps.len() == 0 {
            return Err(ConfigError::MissingPattern);
        }
        let pattern = ps[0].clone();
        let mut path = String::from_str(" ");
        proof {
            reveal_strlit(" ");
            reveal_strlit("  ");
        }
        let ghost files = string_views(ps@).drop_first();
        let mut i: usize = 1;
        assert(files.take(0) =~= Seq::<Seq<char>>::empty());
        while i < ps.len()
            invariant
                1 <= i <= ps@.len(),
                files == string_views(ps@).drop_first(),
                path@ == joined_paths(files.take(i - 1)),
            decreases ps@.len() - i,
        {
            proof {
                reveal_strlit("  ");
            }
            path.append("  ");
            path.append(ps[i].as_str());
            assert(files.take(i as int).drop_last() =~= files.take(i - 1));
            i = i + 1;
        }
        assert(files.take(i - 1) =~= files);
        assert(path@ == joined_paths(files));
        proof {
            reveal_strlit(" ");
            assert(" "@ =~= seq![' ']);
        }
        let path = if !str_eq(path.as_str(), " ") {
            String::from_str(trim_str(path.as_str()))
        } else {
            path
        };
        let ignore_case = ignore_case_var || has_arg(env_args, "-i");
        let color = has_arg(env_args, "--color");
        let afterlines: usize = match search_string_interator::<usize>(env_args, "-A") {
            Ok(Some(v)) => v,
            Ok(None) => 0,
            Err(e) => {
                return Err(ConfigError::Option(e));
            },
        };
        let beforelines: usize = match search_string_interator::<usize>(env_args, "-B") {
            Ok(Some(v)) => v,
            Ok(None) => 0,
            Err(e) => {
                return Err(ConfigError::Option(e));
            },
        };
        Ok(Config { pattern, path, ignore_case, color, afterlines, beforelines })
    }

    /// The input is read from stdin: no file was named.
    pub fn read_from_stdin(&self) -> (r: bool)
        ensures
            r == (self@.path == " "@),
    {
        str_eq(self.path.as_str(), " ")
    }

    /// The number of files named.
    pub fn how_many_files(&self) -> (r: usize)
        ensures
            r == words(self@.path).len(),
    {
        count_words(self.path.as_str())
    }

    /// The files named, in order.
    pub fn files(&self) -> (r: Vec<String>)
        ensures
            string_views(r@) == words(self@.path),
    {
        split_whitespace(self.path.as_str())
    }

    /// Where input number `ifile` comes from: stdin when no file is named,
    /// else file number `ifile`, shown by its path when there are several
    /// files. When files are named, `ifile` must be the number of one.
    pub fn input(&self, ifile: usize) -> (r: Input)
        requires
            words(self@.path).len() == 0 || ifile < words(self@.path).len(),
        ensures
            ({
                let fs = words(self@.path);
                if fs.len() == 0 {
                    r == Input::Stdin
                } else {
                    r matches Input::File { path, display } && path@ == fs[ifile as int]
                        && display@ == (if fs.len() == 1 {
                        Seq::<char>::empty()
                    } else {
                        fs[ifile as int]
                    })
                }
            }),
    {
        let files = self.files();
        if files.len() == 0 {
            return Input::Stdin;
        }
        let (path, display) = self.file_at(ifile);
        Input::File { path, display }
    }

    /// File number `ifile`, with what precedes its lines in the output: its
    /// path when there are several files, nothing when it is the only one.
    pub fn file_at(&self, ifile: usize) -> (r: (String, String))
        requires
            ifile < words(self@.path).len(),
        ensures
            ({
                let fs = words(self@.path);
                &&& r.0@ == fs[ifile as int]
                &&& r.1@ == (if fs.len() == 1 {
                    Seq::<char>::empty()
                } else {
                    fs[ifile as int]
                })
            }),
    {
        let files = self.files();
        let path = files[ifile].clone();
        let display = if files.len() == 1 {
            String::new()
        } else {
            files[ifile].clone()
        };
        (path, display)
    }

    /// The regular expression this configuration searches for: the pattern,
    /// made case-insensitive when case is ignored. The pattern must be a
    /// valid regular expression (see `checked_regex`).
    pub fn regex(&self) -> (r: Matcher)
        requires
            regex_compiles(regex_source(self@)),
        ensures
            r@ == regex_source(self@),
    {
        let source = self.regex_source();
        match Matcher::new(source.as_str()) {
            Ok(m) => m,
            Err(_) => vstd::pervasive::unreached(),
        }
    }

    /// The regular expression this configuration searches for, or `None`
    /// when the `regex` crate refuses it.
    pub fn checked_regex(&self) -> (r: Option<Matcher>)
        ensures
            r is Some == regex_compiles(regex_source(self@)),
            r matches Some(m) ==> m@ == regex_source(self@),
    {
        let source = self.regex_source();
        match Matcher::new(source.as_str()) {
            Ok(_) => Some(self.regex()),
            Err(_) => None,
        }
    }

    /// The text of the regular expression this configuration searches for.
    pub fn regex_source(&self) -> (r: String)
        ensures
            r@ == regex_source(self@),
    {
        if self.ignore_case {
            let mut source = String::from_str("(?i)");
            source.append(self.pattern.as_str());
            source
        } else {
            self.pattern.clone()
        }
    }

    /// The pattern.
    pub fn pattern(&self) -> (r: &str)
        ensures
            r@ == self@.pattern,
    {
        self.pattern.as_str()
    }

    /// The files, as one text.
    pub fn path(&self) -> (r: &str)
        ensures
            r@ == self@.path,
    {
        self.path.as_str()
    }

    /// Whether case is ignored.
    pub fn ignore_case(&self) -> (r: bool)
        ensures
            r == self@.ignore_case,
    {
        self.ignore_case
    }

    /// Whether matches are colored.
    pub fn color(&self) -> (r: bool)
        ensures
            r == self@.color,
    {
        self.color
    }

    /// The number of context lines after a match.
    pub fn afterlines(&self) -> (r: usize)
        ensures
            r == self@.afterlines,
    {
        self.afterlines
    }

    /// The number of context lines before a match.
    pub fn beforelines(&self) -> (r: usize)
        ensures
            r == self@.beforelines,
    {
        self.beforelines
    }
}

} // verus!
