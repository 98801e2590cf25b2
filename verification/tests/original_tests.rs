use minigrep::config::{follows_value, OptionError};
use minigrep::{
    search, search_case_insensitive, search_re, search_string_interator,
    spot_parameters_and_values, Matcher, NotImplementedError, OneLine,
};

const LINEE: &str =
    "/\nPoche linee di testo\nBastano poche linee\nper provare il caso\ncase sensitive\nbasta cosi";

fn strings(v: &[&str]) -> Vec<String> {
    v.iter().map(|item| item.to_string()).collect()
}

#[test]
fn one_results() {
    let pattern = "parola";
    let linee = r#"\
            questo è un testo
            di prova
            per controllare che la 
            parola prova venga
            trovata da search
            "#;
    assert_eq!(vec!["            parola prova venga"], search(pattern, linee));
}

#[test]
fn case_sensitive() {
    let pattern: &str = "Basta";
    assert_eq!(vec!["Bastano poche linee"], search(pattern, LINEE));
}

#[test]
fn case_insensitive() {
    let pattern: &str = "basTa";
    assert_eq!(
        vec!["Bastano poche linee", "basta cosi"],
        search_case_insensitive(pattern, LINEE)
    );
}

#[test]
fn regex_case_sensitive() {
    let re = Matcher::new(r"che\s").unwrap();
    assert_eq!(vec!["Poche linee di testo", "Bastano poche linee"], search_re(&re, LINEE));
}

#[test]
fn regex_case_insensitive() {
    let re = Matcher::new(r"(?i)^basta").unwrap();
    assert_eq!(vec!["Bastano poche linee", "basta cosi"], search_re(&re, LINEE));
}

#[test]
fn not_implemented_error() {
    const TEST_FEATURE: &str = "Fake Feature";
    let errore = NotImplementedError { feature: TEST_FEATURE };
    assert_eq!("feature Fake Feature not yet implemented", errore.to_string());
}

#[test]
fn togle_expect_value() {
    let mut check: bool = true;
    let _dummy = spot_parameters_and_values(&"pippo".to_string(), &mut check);
    assert_eq!(check, false)
}

#[test]
fn set_expect_value() {
    let mut check: bool = false;
    let four_args = strings(&["ciao", "-A", "5", "pippo", "-i", "paperino"]);
    let params = four_args
        .iter()
        .filter(|stringa| spot_parameters_and_values(stringa, &mut check))
        .collect::<Vec<&String>>();
    assert_eq!(vec![&"ciao".to_string(), &"pippo".to_string(), &"paperino".to_string()], params);
}

#[test]
fn search_usize_option_parameter() {
    let four_args = strings(&["ciao", "-A", "5", "pippo", "-i", "paperino"]);
    let myres: Option<usize> = search_string_interator(&four_args, "-A").unwrap();
    let value = myres.expect("error reading value");
    assert_eq!(value, 5);
}

#[test]
fn search_string_option_parameter() {
    let four_args = strings(&["ciao", "-A", "prova", "pippo", "-i", "paperino"]);
    let myres: Option<String> = search_string_interator(&four_args, "-A").unwrap();
    let value = myres.expect("error reading value");
    assert_eq!(&value[..], "prova");
}

#[test]
fn fail_search() {
    let four_args = strings(&["ciao", "-A", "5", "pippo", "-i", "paperino"]);
    let myres: Option<usize> = search_string_interator(&four_args, "-B").unwrap();
    let value = myres.unwrap_or(0);
    assert_eq!(value, 0);
}

#[test]
fn fail_search_string() {
    let four_args = strings(&["ciao", "-B", "prova", "pippo", "-i", "paperino"]);
    let myres: Option<String> = search_string_interator(&four_args, "-A").unwrap();
    let value = myres.unwrap_or("".to_string());
    assert_eq!(&value[..], "");
}

#[test]
fn create_and_read_oneline() {
    let myline = String::from("rust è un linguaggio cervellotico");
    let prova = OneLine::new(myline, true, false);
    assert_eq!(prova.to_string(), "rust è un linguaggio cervellotico")
}

#[test]
fn toggle_oneline_prints() {
    let myline = String::from("fanculo al rust");
    let mut prova = OneLine::new(myline, false, false);
    let check_1 = prova.prints();
    assert_eq!(check_1, false);
    prova.toggle_prints();
    let check_2 = prova.prints();
    assert_eq!(check_2, true)
}

#[test]
fn invalid_option_value_is_reported() {
    let args = strings(&["prog", "-A", "cinque"]);
    let myres: Result<Option<usize>, OptionError> = search_string_interator(&args, "-A");
    assert_eq!(
        myres,
        Err(OptionError::InvalidValue { value: "cinque".to_string(), option: "-A".to_string() })
    );
    assert!(follows_value(&args, "-A"));
    assert!(follows_value(&args, "-B"));
    assert!(!follows_value(&args[..2].to_vec(), "-A"));
}
