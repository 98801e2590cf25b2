# minigrep

A small grep, written in Verus. It searches text for a pattern line by line,
prints a number of context lines before (`-B n`) and after (`-A n`) each
match with `---` between groups, can ignore case (`-i` or the `IGNORE_CASE`
variable) and color the matches (`--color`).

- `src/` is the verified library:
  - `text.rs`: characters, whitespace, words, trimming, lines, substring search;
  - `config.rs`: the command line, its options and their values;
  - `matcher.rs`: regular expressions, through the `regex` crate;
  - `search.rs`: the lines of a text that contain or match a pattern;
  - `grep.rs`: the streaming search with context lines, and the proof that
    what it prints is exactly the lines near a match;
  - `manylines.rs`, `myerror.rs`: a line with its flags, and an error type.
- `app/main.rs` is the program: it reads the command line, the environment
  and the files, and prints what the library hands back.
- `tests/` runs the library on concrete inputs.
