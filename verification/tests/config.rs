use minigrep::{run, Argument, Config, ConfigError};

fn tokens(items: &[&str]) -> Vec<String> {
    items.iter().map(|item| item.to_string()).collect()
}

#[test]
fn should_parse_args_into_config() {
    let args: Vec<String> = vec![
        "minigrep".to_string(),
        "test query".to_string(),
        "~/dev/foo.txt".to_string(),
    ];
    let config = Config::from(&args, false);
    assert!(config.is_ok());

    let config = config.unwrap();
    assert_eq!(config.query(), "test query");
    assert_eq!(config.filename(), "~/dev/foo.txt");
}

#[test]
fn should_not_parse_args_if_query_is_missing() {
    let args: Vec<String> = vec!["minigrep".to_string()];
    let config = Config::from(&args, false);
    assert!(config.is_err());
    assert_eq!(config.err().map(|e| e.message()), Some("Missing query argument"));
}

#[test]
fn should_not_parse_args_if_filename_is_missing() {
    let args: Vec<String> = vec!["minigrep".to_string(), "test query".to_string()];
    let config = Config::from(&args, false);
    assert!(config.is_err());
    assert_eq!(config.err().map(|e| e.message()), Some("Missing filename argument"));
}

#[test]
fn missing_query_is_told_by_kind() {
    let config = Config::from(&tokens(&["minigrep"]), false);
    assert_eq!(config.err(), Some(ConfigError::MissingArgument(Argument::Query)));
}

#[test]
fn missing_filename_is_told_by_kind() {
    let config = Config::from(&tokens(&["minigrep", "needle"]), true);
    assert_eq!(config.err(), Some(ConfigError::MissingArgument(Argument::Filename)));
}

#[test]
fn no_tokens_at_all_miss_the_query() {
    let config = Config::from(&[], false);
    assert_eq!(config.err(), Some(ConfigError::MissingArgument(Argument::Query)));
}

#[test]
fn tokens_after_the_file_name_are_ignored() {
    let config = Config::from(&tokens(&["minigrep", "needle", "hay.txt", "extra", "more"]), false)
        .unwrap();
    assert_eq!(config.query(), "needle");
    assert_eq!(config.filename(), "hay.txt");
    assert!(config.case_sensitive());
}

#[test]
fn tokens_are_taken_verbatim() {
    let config = Config::from(&tokens(&["", "  Spaced Query ", "./dir with space/\u{e9}.txt"]), false)
        .unwrap();
    assert_eq!(config.query(), "  Spaced Query ");
    assert_eq!(config.filename(), "./dir with space/\u{e9}.txt");
}

#[test]
fn an_empty_query_token_is_accepted() {
    let config = Config::from(&tokens(&["minigrep", "", "hay.txt"]), false).unwrap();
    assert_eq!(config.query(), "");
    assert_eq!(config.filename(), "hay.txt");
}

#[test]
fn case_counts_unless_the_switch_is_set() {
    let args = tokens(&["minigrep", "needle", "hay.txt"]);
    assert!(Config::from(&args, false).unwrap().case_sensitive());
    assert!(!Config::from(&args, true).unwrap().case_sensitive());
}

#[test]
fn new_keeps_its_three_values() {
    let config = Config::new("needle", "hay.txt", false);
    assert_eq!(config.query(), "needle");
    assert_eq!(config.filename(), "hay.txt");
    assert!(!config.case_sensitive());
}

#[test]
fn arguments_have_names() {
    assert_eq!(Argument::Query.name(), "query");
    assert_eq!(Argument::Filename.name(), "filename");
}

#[test]
fn errors_have_messages() {
    assert_eq!(
        ConfigError::MissingArgument(Argument::Query).message(),
        "Missing query argument"
    );
    assert_eq!(
        ConfigError::MissingArgument(Argument::Filename).message(),
        "Missing filename argument"
    );
}

#[test]
fn run_searches_as_configured() {
    let content = "Rust:\nsafe, fast, productive.\nPick three.\nTrust me.";
    let sensitive = Config::new("rust", "poem.txt", true);
    assert_eq!(run(&sensitive, content), vec!["Trust me."]);
    let insensitive = Config::new("rust", "poem.txt", false);
    assert_eq!(run(&insensitive, content), vec!["Rust:", "Trust me."]);
}

#[test]
fn run_with_configuration_from_tokens() {
    let content = "one\nTwo\ntwo\n";
    let args = tokens(&["minigrep", "two", "numbers.txt"]);
    let config = Config::from(&args, true).unwrap();
    assert_eq!(run(&config, content), vec!["Two", "two"]);
    let config = Config::from(&args, false).unwrap();
    assert_eq!(run(&config, content), vec!["two"]);
}
