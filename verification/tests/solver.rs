use wordle::pattern::Pattern;
use wordle::solver::{feedback, obeys_hard_mode, GuessFeedback, ScoringPlan, Solver};
use wordle::word::Word;

fn w(raw: &str) -> Word {
    Word::parse_upper_ascii(raw).expect("word literal must be valid")
}

#[test]
fn feedback_handles_repeated_letters() {
    let pattern = feedback(w("ALLEY"), w("APPLE"));
    assert_eq!(pattern.to_string(), "GYBYB");
}

#[test]
fn feedback_matches_readme_example() {
    let pattern = feedback(w("AROSE"), w("ABACK"));
    assert_eq!(pattern.to_string(), "GBBBB");
}

#[test]
fn feedback_marks_only_as_many_repeats_as_the_answer_has() {
    assert_eq!(feedback(w("LLAMA"), w("ALLOY")).to_string(), "YGYBB");
    assert_eq!(feedback(w("EERIE"), w("CLEAN")).to_string(), "YBBBB");
    assert_eq!(feedback(w("EERIE"), w("THREE")).to_string(), "YBGBG");
}

#[test]
fn pattern_round_trip() {
    let pattern = Pattern::parse("GYBBB").expect("valid pattern");
    assert_eq!(pattern.to_string(), "GYBBB");
}

#[test]
fn pattern_rejects_bad_input() {
    assert!(Pattern::parse("GGGG").is_err());
    assert!(Pattern::parse("GGGGGG").is_err());
    assert!(Pattern::parse("GGGGZ").is_err());
    assert!(Pattern::parse("GGG1G").is_err());
    assert!(Pattern::parse("gybbb").is_ok());
}

#[test]
fn only_all_green_is_solved() {
    assert!(Pattern::parse("GGGGG").expect("valid pattern").is_solved());
    assert!(!Pattern::parse("GGGGY").expect("valid pattern").is_solved());
}

#[test]
fn filtering_keeps_only_matching_answers() {
    let answers = vec![w("ABACK"), w("ALARM"), w("BEARD")];
    let guesses = vec![w("AROSE"), w("ABACK"), w("ALARM"), w("BEARD")];
    let solver = Solver::new(answers, guesses);

    let history = vec![GuessFeedback {
        guess: w("AROSE"),
        pattern: Pattern::parse("GBBBB").expect("valid pattern"),
    }];

    let candidates = solver.candidates(&history);
    assert_eq!(candidates, vec![w("ABACK")]);
}

#[test]
fn no_candidates_means_no_suggestions() {
    let answers = vec![w("ABACK")];
    let solver = Solver::new(answers.clone(), answers);
    assert!(matches!(solver.scoring_plan(&[], &[], false, 5), ScoringPlan::Nothing));
}

#[test]
fn hard_mode_keeps_greens_and_reuses_revealed_letters() {
    let history = vec![GuessFeedback {
        guess: w("CRANE"),
        pattern: Pattern::parse("YBGBB").expect("valid pattern"),
    }];

    assert!(obeys_hard_mode(w("ABACK"), &history));
    assert!(obeys_hard_mode(w("COACH"), &history));
    assert!(!obeys_hard_mode(w("ACTOR"), &history));
    assert!(!obeys_hard_mode(w("SLATE"), &history));

    let history = vec![GuessFeedback {
        guess: w("LLAMA"),
        pattern: Pattern::parse("YGYBB").expect("valid pattern"),
    }];

    assert!(obeys_hard_mode(w("ALLOY"), &history));
    assert!(!obeys_hard_mode(w("ALOOF"), &history));
}

#[test]
fn hard_mode_pool_allows_eliminated_words_that_fit_the_clues() {
    let answers = vec![w("ABACK"), w("PLANK"), w("QUACK"), w("FLAME")];
    let mut guesses = answers.clone();
    guesses.extend([w("BEARD"), w("CRANE"), w("STOMP")]);
    let solver = Solver::new(answers.clone(), guesses);

    let history = vec![GuessFeedback {
        guess: w("SHARD"),
        pattern: Pattern::parse("BBGBB").expect("valid pattern"),
    }];
    let candidates = solver.candidates(&history);
    assert_eq!(candidates, answers);

    let words = |hard_mode: bool| {
        let mut words = match solver.scoring_plan(&history, &candidates, hard_mode, 10) {
            ScoringPlan::Ranked(words) => words,
            _ => panic!("more than two candidates are ranked"),
        };
        words.sort();
        words
    };

    let mut hard = answers.clone();
    hard.extend([w("BEARD"), w("CRANE")]);
    hard.sort();
    assert_eq!(words(true), hard);
    assert!(words(false).contains(&w("STOMP")));
}
