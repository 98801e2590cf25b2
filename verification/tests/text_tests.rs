use minigrep::manylines::LineView;
use minigrep::text::{count_words, split_whitespace, str_eq, trim_str};
use minigrep::{
    listing_lines, popfront, print_linee_with_color, search, search_case_insensitive, Matcher,
    OneLine,
};

#[test]
fn lines_drop_crlf_but_keep_bare_cr() {
    assert_eq!(search("x", "ax\r\nbx\rc\n"), vec!["ax", "bx\rc"]);
    assert_eq!(search("", "a\n\nb\n"), vec!["a", "", "b"]);
    assert_eq!(search("", ""), Vec::<&str>::new());
    assert_eq!(search("\r", "last\r"), vec!["last\r"]);
}

#[test]
fn case_insensitive_splits_on_newline_only() {
    assert_eq!(search_case_insensitive("", "a\n"), vec!["a", ""]);
    assert_eq!(search_case_insensitive("X", "ax\r\nb"), vec!["ax\r"]);
}

#[test]
fn words_and_trimming() {
    assert_eq!(split_whitespace("  a\tbb \u{3000}c  "), vec!["a", "bb", "c"]);
    assert_eq!(count_words("  a\tbb \u{3000}c  "), 3);
    assert_eq!(count_words(" "), 0);
    assert_eq!(trim_str(" \n x y \u{a0}"), "x y");
    assert_eq!(trim_str("   "), "");
    assert!(str_eq("abc", "abc"));
    assert!(!str_eq("abc", "abd"));
}

#[test]
fn listing_formats() {
    let re = Matcher::new("b").unwrap();
    assert_eq!(listing_lines(&re, false, "abc\nxyz\nbb", "f"), vec!["f:abc", "f:bb"]);
    assert_eq!(listing_lines(&re, false, "abc\nxyz", ""), vec!["abc"]);
    assert_eq!(print_linee_with_color(&re, "abc", ""), "a\x1B[31mb\x1B[0mc");
    assert_eq!(print_linee_with_color(&re, "abc", "f"), "\x1B[33mf:\x1B[0m a\x1B[31mb\x1B[0mc");
}

#[test]
fn popfront_splits_first() {
    let v = vec![OneLine::new("a".to_string(), false, false), OneLine::new("b".to_string(), true, true)];
    let (first, rest) = popfront(v);
    assert_eq!(first.unwrap().to_string(), "a");
    assert_eq!(rest.len(), 1);
    assert!(rest[0].matches());
    let (none, empty) = popfront(rest.into_iter().skip(1).collect());
    assert!(none.is_none());
    assert!(empty.is_empty());
}

#[test]
fn oneline_fields() {
    let l = OneLine::with_lnum("t".to_string(), false, true, 42);
    assert_eq!(l.lnum(), 42);
    assert!(l.matches());
    assert!(!l.prints());
    let d = OneLine::default();
    assert_eq!(d.to_string(), "");
    assert_eq!(d.lnum(), 0);
    assert!(!d.prints());
    let _unused: Option<LineView> = None;
}

#[test]
fn longer_pattern_finds_fewer_lines() {
    let t = "abc\nab\nxabcx\nb";
    assert_eq!(search("ab", t), vec!["abc", "ab", "xabcx"]);
    assert_eq!(search("abc", t), vec!["abc", "xabcx"]);
    assert_eq!(search("", t), t.lines().collect::<Vec<_>>());
}

#[test]
fn pattern_case_does_not_matter() {
    let t = "Basta\nbasta\nBASTA\nno";
    assert_eq!(search_case_insensitive("BASTA", t), search_case_insensitive("basta", t));
    assert_eq!(search_case_insensitive("bAsTa", t), vec!["Basta", "basta", "BASTA"]);
}
