use minigrep::search;
use minigrep::Config;
use minigrep::TextSource;

fn config(query: &str, ignore_case: bool) -> Config {
    Config { query: query.to_string(), ignore_case, source: TextSource::Stdin }
}

#[test]
fn case_sensitive() {
    let query = "duct";
    let contents = "\
Rust:
safe, fast, productive.
Pick three.
Duct tape.";
    assert_eq!(
        vec!["safe, fast, productive."],
        search(
            contents,
            &Config { query: query.to_string(), ignore_case: false, source: TextSource::Stdin }
        )
    );
}

#[test]
fn case_insensitive() {
    let query = "rUsT";
    let contents = "\
Rust:
safe, fast, productive.
Pick three.
Trust me.";
    assert_eq!(
        vec!["Rust:", "Trust me."],
        search(
            contents,
            &Config { query: query.to_string(), ignore_case: true, source: TextSource::Stdin }
        )
    );
}

#[test]
fn case_toggle_changes_results() {
    let contents = "Rust:\nsafe, fast, productive.\nPick three.\nTrust me.";
    let sensitive = search(contents, &config("rUsT", false));
    assert_eq!(sensitive, Vec::<&str>::new());
    let insensitive = search(contents, &config("rUsT", true));
    assert_eq!(insensitive, vec!["Rust:", "Trust me."]);
}

#[test]
fn case_insensitive_lowercases_both_sides() {
    let contents = "Rust:\nsafe, fast, productive.\nPick three.\nDuct tape.";
    let results = search(contents, &config("DUCT", true));
    assert_eq!(results, vec!["safe, fast, productive.", "Duct tape."]);
}

#[test]
fn empty_query_returns_every_line() {
    let contents = "Rust:\nsafe, fast, productive.\nPick three.";
    let expected = vec!["Rust:", "safe, fast, productive.", "Pick three."];
    assert_eq!(search(contents, &config("", false)), expected);
    assert_eq!(search(contents, &config("", true)), expected);
}

#[test]
fn search_is_idempotent() {
    let contents = "Rust:\nsafe, fast, productive.\nPick three.\nTrust me.";
    let first = search(contents, &config("rUsT", true));
    let second = search(contents, &config("rUsT", true));
    assert_eq!(first, second);
    let first = search(contents, &config("st", false));
    let second = search(contents, &config("st", false));
    assert_eq!(first, second);
}

#[test]
fn returned_lines_contain_query() {
    let contents = "one duct\ntwo\nthree ducts\nduck";
    let results = search(contents, &config("duct", false));
    assert_eq!(results, vec!["one duct", "three ducts"]);
    for line in results {
        assert!(line.contains("duct"));
    }
}

#[test]
fn no_match_gives_empty_result() {
    let contents = "alpha\nbeta";
    assert_eq!(search(contents, &config("gamma", false)), Vec::<&str>::new());
}

#[test]
fn search_of_empty_text_is_empty() {
    assert_eq!(search("", &config("a", false)), Vec::<&str>::new());
    assert_eq!(search("", &config("", false)), Vec::<&str>::new());
}

#[test]
fn search_keeps_original_casing() {
    let contents = "ALPHA\nbeta";
    assert_eq!(search(contents, &config("alpha", true)), vec!["ALPHA"]);
}
