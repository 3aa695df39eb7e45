use minigrep::Config;
use minigrep::ConfigError;
use minigrep::TextSource;

fn args(list: &[&str]) -> Vec<String> {
    list.iter().map(|a| a.to_string()).collect()
}

#[test]
fn piped_stdin_needs_only_a_query() {
    let args = args(&["prog", "query"]);
    let config = Config::build(&args, false, None).unwrap();
    assert_eq!(config.query, "query");
    assert!(!config.ignore_case);
    assert!(matches!(config.source, TextSource::Stdin));
}

#[test]
fn missing_query_fails_in_either_branch() {
    let args = args(&["prog"]);
    assert_eq!(Config::build(&args, false, None).unwrap_err(), ConfigError {
        required: 2,
        actual: 1,
    });
    assert_eq!(Config::build(&args, true, None).unwrap_err(), ConfigError {
        required: 3,
        actual: 1,
    });
}

#[test]
fn interactive_terminal_needs_a_file_path() {
    let args = args(&["prog", "query", "input.txt"]);
    let config = Config::build(&args, true, None).unwrap();
    assert_eq!(config.query, "query");
    match config.source {
        TextSource::File(path) => assert_eq!(path, "input.txt"),
        TextSource::Stdin => panic!("expected a file source"),
    }
}

#[test]
fn interactive_terminal_without_path_fails() {
    let args = args(&["prog", "query"]);
    assert_eq!(Config::build(&args, true, None).unwrap_err(), ConfigError {
        required: 3,
        actual: 2,
    });
}

#[test]
fn extra_argument_with_piped_stdin_is_tolerated() {
    let args = args(&["prog", "query", "ignored.txt"]);
    let config = Config::build(&args, false, None).unwrap();
    assert!(matches!(config.source, TextSource::Stdin));
}

#[test]
fn ignore_case_follows_presence_of_the_variable() {
    let args = args(&["prog", "query"]);
    let set_empty = Config::build(&args, false, Some(String::new())).unwrap();
    assert!(set_empty.ignore_case);
    let set_value = Config::build(&args, false, Some("1".to_string())).unwrap();
    assert!(set_value.ignore_case);
    let unset = Config::build(&args, false, None).unwrap();
    assert!(!unset.ignore_case);
}

#[test]
fn check_args_count_compares_lengths() {
    let two = args(&["prog", "query"]);
    assert!(Config::check_args_count(&two, 2).is_ok());
    assert_eq!(Config::check_args_count(&two, 3).unwrap_err(), ConfigError {
        required: 3,
        actual: 2,
    });
    assert!(Config::check_args_count(&two, 0).is_ok());
}
