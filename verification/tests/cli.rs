use wordle::cli::{help_text, parse_args, CliAction, Config};
use wordle::word::Word;

fn args(list: &[&str]) -> Vec<String> {
    list.iter().map(|s| s.to_string()).collect()
}

fn run(list: &[&str]) -> Config {
    match parse_args(&args(list)) {
        Ok(CliAction::Run(config)) => config,
        Ok(CliAction::Help) => panic!("unexpected help"),
        Err(err) => panic!("unexpected error: {err}"),
    }
}

fn error(list: &[&str]) -> String {
    match parse_args(&args(list)) {
        Err(err) => err,
        Ok(_) => panic!("expected an error"),
    }
}

#[test]
fn defaults_without_flags() {
    let config = run(&[]);
    assert!(!config.hard_mode);
    assert_eq!(config.top_n, 10);
    assert_eq!(config.max_guesses, 6);
    assert!(config.simulate_answer.is_none());
    assert!(config.simulate_start.is_none());
}

#[test]
fn flags_set_options() {
    let config = run(&["--hard", "--top", "3", "--max-guesses", "+8", "--answer", " crane ", "--start", "SLATE"]);
    assert!(config.hard_mode);
    assert_eq!(config.top_n, 3);
    assert_eq!(config.max_guesses, 8);
    assert_eq!(config.simulate_answer, Word::parse_upper_ascii("CRANE"));
    assert_eq!(config.simulate_start, Word::parse_upper_ascii("SLATE"));
}

#[test]
fn number_flag_errors() {
    assert_eq!(error(&["--top"]), "--top expects a number");
    assert_eq!(error(&["--top", "x"]), "--top expects a positive integer");
    assert_eq!(error(&["--top", "-1"]), "--top expects a positive integer");
    assert_eq!(error(&["--top", ""]), "--top expects a positive integer");
    assert_eq!(error(&["--top", "0"]), "--top must be >= 1");
    assert_eq!(error(&["--max-guesses"]), "--max-guesses expects a number");
    assert_eq!(error(&["--max-guesses", "99999999999999999999999"]), "--max-guesses expects a positive integer");
    assert_eq!(error(&["--max-guesses", "0"]), "--max-guesses must be >= 1");
}

#[test]
fn word_flag_errors() {
    assert_eq!(error(&["--answer"]), "--answer expects a 5-letter word");
    assert_eq!(error(&["--answer", "abc"]), "--answer expects a valid 5-letter word");
    assert_eq!(error(&["--start"]), "--start expects a 5-letter word");
    assert_eq!(error(&["--start", "cran3"]), "--start expects a valid 5-letter word");
}

#[test]
fn unknown_argument_shows_help() {
    let err = error(&["--bogus"]);
    assert_eq!(err, format!("Unknown argument: --bogus\n\n{}", help_text()));
}

#[test]
fn help_stops_reading() {
    assert!(matches!(parse_args(&args(&["--help", "--bogus"])), Ok(CliAction::Help)));
    assert!(matches!(parse_args(&args(&["--hard", "-h"])), Ok(CliAction::Help)));
    assert!(matches!(parse_args(&args(&["--bogus", "-h"])), Err(_)));
}

#[test]
fn help_text_lists_flags() {
    let text = help_text();
    assert!(text.starts_with("WordleBot Rust (terminal)\n"));
    assert!(text.contains("--max-guesses N   Guess limit in simulation mode (default: 6)\n"));
}
