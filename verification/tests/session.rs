use wordle::pattern::Pattern;
use wordle::session::{simulation_opening, simulation_turn, LineOutcome, Session, TurnOutcome};
use wordle::solver::{GuessFeedback, Solver};
use wordle::word::Word;

fn w(raw: &str) -> Word {
    Word::parse_upper_ascii(raw).expect("word literal must be valid")
}

fn solver() -> Solver {
    let answers = vec![w("ABACK"), w("ALARM"), w("BEARD"), w("CRANE")];
    let mut guesses = answers.clone();
    guesses.push(w("SLATE"));
    Solver::new(answers, guesses)
}

#[test]
fn commands_are_recognised() {
    let solver = solver();
    let mut session = Session::new(false);
    assert!(matches!(session.handle_line(&solver, "   \n"), LineOutcome::Ignored));
    assert!(matches!(session.handle_line(&solver, "list\n"), LineOutcome::ListRequested));
    assert!(matches!(session.handle_line(&solver, "hard  on"), LineOutcome::HardModeOn));
    assert!(session.hard_mode);
    assert!(matches!(session.handle_line(&solver, "HARD OFF"), LineOutcome::HardModeOff));
    assert!(!session.hard_mode);
    assert!(matches!(session.handle_line(&solver, "undo"), LineOutcome::NothingToUndo));
    assert!(matches!(session.handle_line(&solver, "exit"), LineOutcome::Quit));
    assert!(matches!(session.handle_line(&solver, " Quit "), LineOutcome::Quit));
}

#[test]
fn guesses_are_recorded_and_undone() {
    let solver = solver();
    let mut session = Session::new(false);
    match session.handle_line(&solver, "crane bybbb\n") {
        LineOutcome::Accepted(entry) => {
            assert_eq!(entry.guess, w("CRANE"));
            assert_eq!(entry.pattern, Pattern::parse("BYBBB").unwrap());
            assert!(!entry.pattern.is_solved());
        }
        _ => panic!("the clue should be accepted"),
    }
    assert_eq!(session.history.len(), 1);
    assert!(matches!(session.handle_line(&solver, "slate GGGGG"), LineOutcome::Accepted(_)));
    assert_eq!(session.history.len(), 2);
    assert!(matches!(session.handle_line(&solver, "UNDO"), LineOutcome::Undone));
    assert_eq!(session.history.len(), 1);
    assert_eq!(session.history[0].guess, w("CRANE"));
    assert!(matches!(session.handle_line(&solver, "reset"), LineOutcome::Cleared));
    assert!(session.history.is_empty());
}

#[test]
fn malformed_lines_are_reported() {
    let solver = solver();
    let mut session = Session::new(false);
    assert!(matches!(session.handle_line(&solver, "crane"), LineOutcome::MissingPattern));
    assert!(matches!(session.handle_line(&solver, "crane bybbb extra"), LineOutcome::TooManyFields));
    match session.handle_line(&solver, "cran3 bybbb") {
        LineOutcome::InvalidGuess(raw) => assert_eq!(raw, "CRAN3"),
        _ => panic!("invalid guess expected"),
    }
    match session.handle_line(&solver, "zonal bybbb") {
        LineOutcome::NotInGuessList(word) => assert_eq!(word, w("ZONAL")),
        _ => panic!("unknown guess expected"),
    }
    match session.handle_line(&solver, "crane bybb") {
        LineOutcome::BadPattern(message) => {
            assert_eq!(message, "Pattern must be exactly 5 chars using B/Y/G.")
        }
        _ => panic!("bad pattern expected"),
    }
    match session.handle_line(&solver, "crane bybbx") {
        LineOutcome::BadPattern(message) => assert_eq!(message, "Pattern can only contain B, Y, or G."),
        _ => panic!("bad pattern expected"),
    }
    assert!(session.history.is_empty());
}

#[test]
fn hard_mode_rejects_guesses_that_drop_clues() {
    let solver = solver();
    let mut session = Session::new(true);
    assert!(matches!(session.handle_line(&solver, "crane BBBGB"), LineOutcome::Accepted(_)));
    match session.handle_line(&solver, "slate bbbbb") {
        LineOutcome::HardModeViolation(word) => assert_eq!(word, w("SLATE")),
        _ => panic!("hard mode violation expected"),
    }
    assert_eq!(session.history.len(), 1);
    assert!(matches!(session.handle_line(&solver, "HARD OFF"), LineOutcome::HardModeOff));
    assert!(matches!(session.handle_line(&solver, "slate bbbbb"), LineOutcome::Accepted(_)));
}

#[test]
fn simulation_opening_checks_words() {
    let solver = solver();
    assert_eq!(
        simulation_opening(&solver, w("SLATE"), None).unwrap_err(),
        "Simulation answer 'SLATE' is not in the official answer list."
    );
    assert_eq!(
        simulation_opening(&solver, w("CRANE"), Some(w("ZONAL"))).unwrap_err(),
        "Starting word 'ZONAL' is not a valid guess."
    );
    assert_eq!(simulation_opening(&solver, w("CRANE"), Some(w("SLATE"))).unwrap(), Some(w("SLATE")));
    assert_eq!(simulation_opening(&solver, w("CRANE"), None).unwrap(), None);
}

#[test]
fn simulation_turns_narrow_to_the_answer() {
    let solver = solver();
    let mut history: Vec<GuessFeedback> = Vec::new();
    match simulation_turn(&solver, w("BEARD"), &mut history, w("SLATE")) {
        TurnOutcome::Continue(pattern, candidates) => {
            assert_eq!(pattern.to_string(), "BBGBY");
            assert_eq!(candidates, vec![w("BEARD")]);
            assert!(candidates.contains(&w("BEARD")));
        }
        _ => panic!("the game goes on"),
    }
    assert_eq!(history.len(), 1);
    match simulation_turn(&solver, w("BEARD"), &mut history, w("BEARD")) {
        TurnOutcome::Solved(pattern) => assert!(pattern.is_solved()),
        _ => panic!("the answer solves the game"),
    }
    assert_eq!(history.len(), 2);
}

#[test]
fn simulation_reports_when_no_candidate_is_left() {
    let solver = solver();
    let mut history = vec![GuessFeedback { guess: w("SLATE"), pattern: Pattern::parse("GGGGY").unwrap() }];
    match simulation_turn(&solver, w("BEARD"), &mut history, w("CRANE")) {
        TurnOutcome::NoCandidates(pattern) => assert_eq!(pattern.to_string(), "BYGBY"),
        _ => panic!("no candidate agrees with the clues"),
    }
}
