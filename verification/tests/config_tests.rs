use minigrep::config::OptionError;
use minigrep::{Config, ConfigError, Input};

fn strings(v: &[&str]) -> Vec<String> {
    v.iter().map(|s| s.to_string()).collect()
}

fn build(v: &[&str], var: bool) -> Result<Config, ConfigError> {
    let args = strings(v);
    Config::build_iterator(&args, &args, var)
}

#[test]
fn pattern_and_files() {
    let conf = build(&["prog", "pat", "f1", "f2"], false).unwrap();
    assert_eq!(conf.pattern(), "pat");
    assert_eq!(conf.path(), "f1  f2");
    assert_eq!(conf.how_many_files(), 2);
    assert!(!conf.read_from_stdin());
    assert_eq!(conf.files(), vec!["f1".to_string(), "f2".to_string()]);
    assert_eq!(
        conf.input(1),
        Input::File { path: "f2".to_string(), display: "f2".to_string() }
    );
    assert_eq!(conf.file_at(0), ("f1".to_string(), "f1".to_string()));
    assert!(!conf.ignore_case());
    assert!(!conf.color());
    assert_eq!(conf.afterlines(), 0);
    assert_eq!(conf.beforelines(), 0);
}

#[test]
fn single_file_is_not_shown() {
    let conf = build(&["prog", "pat", "only.txt"], false).unwrap();
    assert_eq!(
        conf.input(0),
        Input::File { path: "only.txt".to_string(), display: "".to_string() }
    );
}

#[test]
fn no_file_reads_stdin() {
    let conf = build(&["prog", "pat"], false).unwrap();
    assert_eq!(conf.path(), " ");
    assert!(conf.read_from_stdin());
    assert_eq!(conf.how_many_files(), 0);
    assert_eq!(conf.input(0), Input::Stdin);
    assert_eq!(conf.input(5), Input::Stdin);
}

#[test]
fn missing_pattern() {
    assert!(matches!(build(&["prog"], false), Err(ConfigError::MissingPattern)));
    assert!(matches!(build(&[], false), Err(ConfigError::MissingPattern)));
    assert!(matches!(build(&["prog", "-i"], false), Err(ConfigError::MissingPattern)));
}

#[test]
fn options_are_read() {
    let conf =
        build(&["prog", "-A", "2", "pat", "-B", "3", "file", "-i", "--color"], false).unwrap();
    assert_eq!(conf.pattern(), "pat");
    assert_eq!(conf.path(), "file");
    assert_eq!(conf.afterlines(), 2);
    assert_eq!(conf.beforelines(), 3);
    assert!(conf.ignore_case());
    assert!(conf.color());
    assert_eq!(conf.regex_source(), "(?i)pat");
}

#[test]
fn ignore_case_from_environment() {
    let conf = build(&["prog", "Pat"], true).unwrap();
    assert!(conf.ignore_case());
    let re = conf.regex();
    assert!(re.is_match("xpATx"));
}

#[test]
fn invalid_option_value() {
    let r = build(&["prog", "pat", "-B", "x"], false);
    assert!(matches!(
        r,
        Err(ConfigError::Option(OptionError::InvalidValue { ref value, ref option }))
            if value == "x" && option == "-B"
    ));
}

#[test]
fn after_value_checked_first() {
    let r = build(&["prog", "pat", "-B", "x", "-A", "y"], false);
    assert!(matches!(
        r,
        Err(ConfigError::Option(OptionError::InvalidValue { ref option, .. })) if option == "-A"
    ));
}

#[test]
fn missing_option_value() {
    let given = |v: &[&str]| {
        let args = strings(v);
        Config::option_values_given(&args, &args)
    };
    assert!(!given(&["prog", "pat", "-A"]));
    assert!(!given(&["prog", "pat", "-A", "1", "-B"]));
    // -A is read first: its bad value stops the reading before -B
    assert!(given(&["prog", "pat", "-A", "x", "-B"]));
    // with no pattern, no option is read
    assert!(given(&["prog", "-A"]));
    assert!(given(&["prog", "pat", "-A", "1", "-B", "2"]));
}

#[test]
fn number_formats() {
    let conf = build(&["prog", "pat", "-A", "+7"], false).unwrap();
    assert_eq!(conf.afterlines(), 7);
    let max = usize::MAX.to_string();
    let conf = build(&["prog", "pat", "-A", &max], false).unwrap();
    assert_eq!(conf.afterlines(), usize::MAX);
    let over = format!("{}0", usize::MAX);
    assert!(build(&["prog", "pat", "-A", &over], false).is_err());
    assert!(build(&["prog", "pat", "-A", "+"], false).is_err());
    assert!(build(&["prog", "pat", "-A", ""], false).is_err());
    assert!(build(&["prog", "pat", "-A", "-1"], false).is_err());
    assert!(build(&["prog", "pat", "-A", "1x"], false).is_err());
}

#[test]
fn empty_file_argument_gives_empty_path() {
    let conf = build(&["prog", "pat", ""], false).unwrap();
    assert_eq!(conf.path(), "");
    assert!(!conf.read_from_stdin());
    assert_eq!(conf.how_many_files(), 0);
}

#[test]
fn invalid_regex_is_refused() {
    let conf = build(&["prog", "("], false).unwrap();
    assert!(conf.checked_regex().is_none());
    let good = build(&["prog", "a+"], false).unwrap();
    assert_eq!(good.checked_regex().unwrap().pattern(), "a+");
}

#[test]
fn ignoring_case_is_the_prefix() {
    let c1 = build(&["prog", "-i", "Pat"], false).unwrap();
    let c2 = build(&["prog", "(?i)Pat"], false).unwrap();
    assert_eq!(c1.regex_source(), c2.regex_source());
    assert!(c1.regex().is_match("pAT") && c2.regex().is_match("pAT"));
}
