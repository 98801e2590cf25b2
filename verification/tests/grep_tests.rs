use minigrep::{render_line, GrepState, Matcher, Popped};

fn run(lines: &[(&str, bool)], before: usize, after: usize) -> Vec<Popped> {
    let mut state = GrepState::new(before, after);
    let mut out = Vec::new();
    for (text, m) in lines {
        if let Some(p) = state.feed_line(text.to_string(), *m) {
            out.push(p);
        }
    }
    for l in state.finish() {
        out.push(Popped::Line(l));
    }
    out
}

fn line(s: &str) -> Popped {
    Popped::Line(s.to_string())
}

#[test]
fn context_before_and_after_with_separator() {
    let lines = [
        ("a", false),
        ("match1", true),
        ("b", false),
        ("c", false),
        ("d", false),
        ("match2", true),
        ("e", false),
    ];
    let out = run(&lines, 1, 1);
    assert_eq!(
        out,
        vec![
            line("a"),
            line("match1"),
            line("b"),
            Popped::Separator,
            line("d"),
            line("match2"),
            line("e")
        ]
    );
}

#[test]
fn no_context_prints_only_matches() {
    let lines = [("x", false), ("hit", true), ("y", false), ("hit2", true), ("z", false)];
    let out = run(&lines, 0, 0);
    assert_eq!(out, vec![line("hit"), Popped::Separator, line("hit2")]);
}

#[test]
fn no_match_prints_nothing() {
    let lines = [("x", false), ("y", false), ("z", false)];
    assert_eq!(run(&lines, 2, 2), vec![]);
}

#[test]
fn every_matching_line_is_printed() {
    let lines = [("m1", true), ("m2", true), ("n", false), ("m3", true)];
    let out = run(&lines, 0, 0);
    for (text, m) in lines.iter() {
        if *m {
            assert!(out.contains(&line(text)));
        }
    }
}

#[test]
fn separator_not_emitted_from_final_window() {
    // the last line before the window's end that is not printed gives no
    // separator: it is flushed, not pushed out
    let lines = [("hit", true), ("x", false)];
    assert_eq!(run(&lines, 1, 0), vec![line("hit")]);
}

#[test]
fn after_context_counts_down() {
    let lines = [("hit", true), ("1", false), ("2", false), ("3", false), ("4", false)];
    let out = run(&lines, 0, 2);
    assert_eq!(out, vec![line("hit"), line("1"), line("2"), Popped::Separator]);
}

#[test]
fn feed_with_regex() {
    let re = Matcher::new("o+").unwrap();
    let mut state = GrepState::new(0, 0);
    let mut out = Vec::new();
    for t in ["foo", "bar", "boo"] {
        if let Some(p) = state.feed(&re, t.to_string()) {
            out.push(p);
        }
    }
    for l in state.finish() {
        out.push(Popped::Line(l));
    }
    assert_eq!(out, vec![line("foo"), Popped::Separator, line("boo")]);
}

#[test]
fn interrupted_pops_the_oldest_line() {
    let mut state = GrepState::new(1, 0);
    assert_eq!(state.feed_line("hit".to_string(), true), None);
    assert_eq!(state.feed_line("x".to_string(), false), None);
    assert_eq!(state.interrupted(), Some(line("hit")));
}

#[test]
fn render_plain_and_colored() {
    let re = Matcher::new("b").unwrap();
    assert_eq!(render_line(&re, false, "f", "abc"), "f:abc");
    assert_eq!(render_line(&re, false, "", "abc"), "abc");
    assert_eq!(render_line(&re, true, "f", "abc"), "\x1B[33mf\x1B[0m:a\x1B[31mb\x1B[0mc");
    assert_eq!(render_line(&re, true, "", "xyz"), "\x1B[33m\x1B[0mxyz");
}

#[test]
fn no_context_prints_what_search_re_finds() {
    let t = "one\ntwo\nthree\nfour\nten";
    let re = Matcher::new("t").unwrap();
    let mut state = GrepState::new(0, 0);
    let mut printed = Vec::new();
    for l in t.lines() {
        if let Some(Popped::Line(x)) = state.feed(&re, l.to_string()) {
            printed.push(render_line(&re, false, "", &x));
        }
    }
    for x in state.finish() {
        printed.push(render_line(&re, false, "", &x));
    }
    assert_eq!(printed, minigrep::search_re(&re, t));
}
