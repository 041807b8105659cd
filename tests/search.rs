use minigrep::{
    find_matches, line_contains, lines, search, search_case_insensitive, Config, ConfigError,
    MIN_ARGS,
};

const POEM: &str = "\
Rust:
safe, fast, productive.
Pick three.";

#[test]
fn one_result() {
    let query = "duct";
    let contents = "\
Rust:
safe, fast, productive.
Pick three.";

    assert_eq!(vec!["safe, fast, productive."], search(query, contents));
}

#[test]
fn case_insensitive_finds_other_case() {
    assert_eq!(vec!["Rust:"], search_case_insensitive("RUST", POEM));
}

#[test]
fn case_sensitive_misses_other_case() {
    assert!(search("RUST", POEM).is_empty());
}

#[test]
fn case_insensitive_returns_original_case() {
    let contents = "Rust:\nsafe, fast, productive.\nTrust me.";
    assert_eq!(vec!["Rust:", "Trust me."], search_case_insensitive("rUsT", contents));
}

#[test]
fn case_insensitive_covers_case_sensitive() {
    let contents = "Rust:\nrust\nTrust me.\nno";
    let exact = search("rust", contents);
    let folded = search_case_insensitive("rust", contents);
    assert_eq!(vec!["rust", "Trust me."], exact);
    assert_eq!(vec!["Rust:", "rust", "Trust me."], folded);
    for line in exact {
        assert!(folded.contains(&line));
    }
}

#[test]
fn results_keep_text_order() {
    let contents = "b one\na two\nb three\nc four\nb five";
    assert_eq!(vec!["b one", "b three", "b five"], search("b", contents));
}

#[test]
fn every_result_holds_query_and_others_do_not() {
    let contents = "alpha\nbeta\ngamma\ndelta";
    let found = search("ta", contents);
    assert_eq!(vec!["beta", "delta"], found);
    for line in contents.lines() {
        assert_eq!(found.contains(&line), line.contains("ta"));
    }
}

#[test]
fn empty_query_returns_every_line() {
    assert_eq!(vec!["Rust:", "safe, fast, productive.", "Pick three."], search("", POEM));
    assert_eq!(vec!["", "x", ""], search("", "\nx\n\n"));
}

#[test]
fn empty_text_returns_nothing() {
    assert!(search("duct", "").is_empty());
    assert!(search("", "").is_empty());
    assert!(search_case_insensitive("duct", "").is_empty());
}

#[test]
fn no_match_returns_nothing() {
    assert!(search("xyz", POEM).is_empty());
}

#[test]
fn lines_split_at_newlines() {
    assert_eq!(vec!["a", "b", "c"], lines("a\nb\nc"));
    assert_eq!(vec!["a", "b"], lines("a\nb\n"));
    assert_eq!(vec!["a", "", "b"], lines("a\n\nb"));
    assert_eq!(vec![""], lines("\n"));
    assert!(lines("").is_empty());
}

#[test]
fn lines_drop_carriage_return_before_newline() {
    assert_eq!(vec!["a", "b"], lines("a\r\nb\r\n"));
    assert_eq!(vec!["a\rb", "c\r"], lines("a\rb\nc\r"));
    assert_eq!(vec!["", "x"], lines("\r\nx"));
}

#[test]
fn lines_agree_with_std() {
    let texts = ["", "a", "a\n", "a\r\n\r\nb", "\n\n", "héllo\nwörld\r\n", "x\ry\r"];
    for t in texts {
        let expected: Vec<&str> = t.lines().collect();
        assert_eq!(expected, lines(t));
    }
}

#[test]
fn search_on_crlf_text() {
    assert_eq!(vec!["safe"], search("fe", "Rust:\r\nsafe\r\n"));
}

#[test]
fn search_on_non_ascii_text() {
    let contents = "grüße\nstraße\nHALLO Ölbaum";
    assert_eq!(vec!["grüße", "straße"], search("ße", contents));
    assert_eq!(vec!["HALLO Ölbaum"], search_case_insensitive("ölb", contents));
}

#[test]
fn line_contains_finds_runs() {
    assert!(line_contains("safe, fast, productive.", "duct"));
    assert!(line_contains("abc", "abc"));
    assert!(line_contains("abc", "c"));
    assert!(line_contains("abc", ""));
    assert!(line_contains("", ""));
    assert!(!line_contains("abc", "abcd"));
    assert!(!line_contains("abc", "ac"));
    assert!(!line_contains("", "a"));
}

#[test]
fn config_from_full_args() {
    let args = vec![
        String::from("minigrep"),
        String::from("duct"),
        String::from("poem.txt"),
    ];
    let config = Config::new(&args, true).unwrap();
    assert_eq!("duct", config.query.as_str());
    assert_eq!("poem.txt", config.filename.as_str());
    assert!(config.case_sensitive);
    let config = Config::new(&args, false).unwrap();
    assert!(!config.case_sensitive);
}

#[test]
fn config_ignores_extra_args() {
    let args = vec![
        String::from("minigrep"),
        String::from("q"),
        String::from("f"),
        String::from("extra"),
    ];
    let config = Config::new(&args, true).unwrap();
    assert_eq!("q", config.query.as_str());
    assert_eq!("f", config.filename.as_str());
}

#[test]
fn config_with_only_query_fails() {
    let args = vec![String::from("minigrep"), String::from("duct")];
    match Config::new(&args, true) {
        Err(e) => assert_eq!(ConfigError::InsufficientArguments { received: 2, required: 3 }, e),
        Ok(_) => panic!("a missing path must be refused"),
    }
    assert_eq!(3, MIN_ARGS);
}

#[test]
fn config_with_no_args_fails() {
    let args: Vec<String> = Vec::new();
    assert!(matches!(
        Config::new(&args, true),
        Err(ConfigError::InsufficientArguments { received: 0, required: 3 })
    ));
}

#[test]
fn find_matches_follows_case_setting() {
    let args = vec![
        String::from("minigrep"),
        String::from("RUST"),
        String::from("poem.txt"),
    ];
    let sensitive = Config::new(&args, true).unwrap();
    assert!(find_matches(&sensitive, POEM).is_empty());
    let insensitive = Config::new(&args, false).unwrap();
    assert_eq!(vec!["Rust:"], find_matches(&insensitive, POEM));
}
