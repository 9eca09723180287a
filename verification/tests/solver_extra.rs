use wordle::pattern::Pattern;
use wordle::ranking::{partition_guess, reduce_guess_pool, rough_rank_guesses};
use wordle::solver::{feedback, obeys_hard_mode, GuessFeedback, ScoringPlan, Solver};
use wordle::word::Word;

fn w(raw: &str) -> Word {
    Word::parse_upper_ascii(raw).expect("word literal must be valid")
}

fn clue(guess: &str, pattern: &str) -> GuessFeedback {
    GuessFeedback {
        guess: w(guess),
        pattern: Pattern::parse(pattern).expect("valid pattern"),
    }
}

fn true_clue(guess: &str, answer: &str) -> GuessFeedback {
    GuessFeedback {
        guess: w(guess),
        pattern: feedback(w(guess), w(answer)),
    }
}

/// Words made of the letters A to E at each position, in a fixed order.
fn many_words(n: usize) -> Vec<Word> {
    let mut words = Vec::new();
    let letters = ['A', 'B', 'C', 'D', 'E', 'F', 'G'];
    'outer: for a in letters {
        for b in letters {
            for c in letters {
                for d in letters {
                    for e in letters {
                        let text: String = [a, b, c, d, e].iter().collect();
                        words.push(w(&text));
                        if words.len() == n {
                            break 'outer;
                        }
                    }
                }
            }
        }
    }
    words
}

#[test]
fn guessing_the_answer_is_all_green() {
    for word in ["CRANE", "ALLEY", "EERIE", "MAMMA"] {
        assert!(feedback(w(word), w(word)).is_solved());
    }
    assert!(!feedback(w("CRANE"), w("CRATE")).is_solved());
    assert_eq!(feedback(w("CRANE"), w("CRATE")).to_string(), "GGGBG");
}

#[test]
fn feedback_yellow_for_misplaced_letters() {
    assert_eq!(feedback(w("CRANE"), w("NACRE")).to_string(), "YYYYG");
    assert_eq!(feedback(w("SPEED"), w("ABIDE")).to_string(), "BBYBY");
    assert_eq!(feedback(w("MAMMA"), w("AMASS")).to_string(), "YYBBY");
}

#[test]
fn answer_always_obeys_hard_mode() {
    let answer = "THREE";
    let history = vec![true_clue("EERIE", answer), true_clue("CRANE", answer), true_clue("TEETH", answer)];
    assert!(obeys_hard_mode(w(answer), &history));
}

#[test]
fn hard_mode_ignores_grey_letters() {
    let history = vec![clue("CRANE", "BBBBB")];
    assert!(obeys_hard_mode(w("CRANE"), &history));
    assert!(obeys_hard_mode(w("SLOTH"), &history));
    assert!(obeys_hard_mode(w("SLOTH"), &[]));
}

#[test]
fn answer_stays_among_candidates() {
    let answers = vec![w("ABACK"), w("THREE"), w("THERE"), w("ETHER"), w("CRANE")];
    let solver = Solver::new(answers.clone(), answers.clone());
    let history = vec![true_clue("EERIE", "THREE"), true_clue("CRANE", "THREE")];
    let candidates = solver.candidates(&history);
    assert!(candidates.contains(&w("THREE")));
    assert!(!candidates.contains(&w("CRANE")));
    assert!(candidates.iter().all(|c| history.iter().all(|e| feedback(e.guess, *c) == e.pattern)));
}

#[test]
fn more_clues_narrow_candidates() {
    let answers = vec![w("ABACK"), w("THREE"), w("THERE"), w("ETHER"), w("CRANE")];
    let solver = Solver::new(answers.clone(), answers);
    let mut history = vec![true_clue("EERIE", "THERE")];
    let before = solver.candidates(&history);
    history.push(true_clue("THREE", "THERE"));
    let after = solver.candidates(&history);
    assert!(after.iter().all(|c| before.contains(c)));
    assert_eq!(after, vec![w("THERE")]);
    assert_eq!(solver.candidates(&[]).len(), 5);
}

#[test]
fn solver_knows_its_lists() {
    let solver = Solver::new(vec![w("ABACK")], vec![w("ABACK"), w("CRANE")]);
    assert!(solver.is_valid_guess(w("CRANE")));
    assert!(solver.is_valid_guess(w("ABACK")));
    assert!(!solver.is_valid_guess(w("SLATE")));
    assert!(solver.is_possible_answer(w("ABACK")));
    assert!(!solver.is_possible_answer(w("CRANE")));
}

#[test]
fn rough_rank_orders_by_score_then_alphabet() {
    let candidates = vec![w("ABACK"), w("ALARM"), w("BEARD")];
    let guesses = vec![w("ZZZZZ"), w("ABACK"), w("BEARD"), w("DRAAB"), w("ALARM")];
    let ranked = rough_rank_guesses(&guesses, &candidates);
    // BEARD: B(2+1) E(1+1) A(3+3) R(2+2) D(1+1) = 17; ALARM: A(3+2) L(1+1) R(2+2) M(1+1) = 13
    // ABACK: A(3+2) B(2+1) C(1+1) K(1+1) = 12; DRAAB: D(1+0) R(2+0) A(3+3) B(2+0) = 11
    assert_eq!(ranked, vec![w("BEARD"), w("ALARM"), w("ABACK"), w("DRAAB"), w("ZZZZZ")]);
}

#[test]
fn small_candidate_sets_keep_the_whole_pool() {
    let candidates = vec![w("ABACK"), w("ALARM"), w("BEARD")];
    let pool = vec![w("ZZZZZ"), w("ABACK"), w("BEARD")];
    assert_eq!(reduce_guess_pool(pool.clone(), &candidates), pool);
}

#[test]
fn large_candidate_sets_rank_the_pool() {
    let candidates = many_words(121);
    let pool = many_words(200);
    let reduced = reduce_guess_pool(pool.clone(), &candidates);
    assert_eq!(reduced, rough_rank_guesses(&pool, &candidates));
    assert_eq!(reduced.len(), 200);
}

#[test]
fn large_candidate_sets_cap_the_pool() {
    let candidates = many_words(1001);
    let pool = many_words(3500);
    let reduced = reduce_guess_pool(pool.clone(), &candidates);
    assert_eq!(reduced.len(), 3000);
    let ranked = rough_rank_guesses(&pool, &candidates);
    assert_eq!(reduced[..], ranked[..3000]);
}

#[test]
fn partition_counts_every_candidate_once() {
    let candidates = vec![w("ABACK"), w("PLANK"), w("QUACK")];
    let part = partition_guess(w("BLOKE"), &candidates);
    assert_eq!(part.buckets.len(), 243);
    assert_eq!(part.buckets.iter().map(|&c| c as usize).sum::<usize>(), 3);
    assert_eq!(part.singleton_buckets, 3);
    assert_eq!(part.solved_now, 0);
    assert!(!part.is_candidate);

    let part = partition_guess(w("ABACK"), &candidates);
    assert_eq!(part.solved_now, 1);
    assert_eq!(part.buckets[242], 1);
    assert_eq!(part.singleton_buckets, 3);
    assert!(part.is_candidate);
    let quack = feedback(w("ABACK"), w("QUACK")).index();
    let plank = feedback(w("ABACK"), w("PLANK")).index();
    assert_eq!(part.buckets[quack], if quack == plank { 2 } else { 1 });
}

#[test]
fn two_candidates_are_scored_in_order() {
    let answers = vec![w("ABACK"), w("ALARM")];
    let solver = Solver::new(answers.clone(), answers.clone());
    match solver.scoring_plan(&[], &answers, false, 2) {
        ScoringPlan::InOrder(words) => assert_eq!(words, answers),
        _ => panic!("two candidates are scored in order"),
    }
    match solver.scoring_plan(&[], &answers, false, 1) {
        ScoringPlan::InOrder(words) => assert_eq!(words, vec![w("ABACK")]),
        _ => panic!("two candidates are scored in order"),
    }
    assert!(matches!(solver.scoring_plan(&[], &answers, false, 0), ScoringPlan::Nothing));
}

#[test]
fn two_candidates_each_solve_or_single_out() {
    let answers = vec![w("ABACK"), w("ALARM")];
    for guess in &answers {
        let part = partition_guess(*guess, &answers);
        assert_eq!(part.solved_now, 1);
        assert_eq!(part.singleton_buckets, 2);
        assert!(part.is_candidate);
    }
}

#[test]
fn colouring_is_symmetric() {
    let pairs = [("ALLEY", "APPLE"), ("LLAMA", "ALLOY"), ("EERIE", "THREE"), ("MAMMA", "AMASS"), ("SPEED", "ABIDE")];
    for (g, a) in pairs {
        let ga = feedback(w(g), w(a)).marks();
        let ag = feedback(w(a), w(g)).marks();
        let coloured = |m: [u8; 5]| m.iter().filter(|&&x| x != 0).count();
        assert_eq!(coloured(ga), coloured(ag));
        for i in 0..5 {
            assert_eq!(ga[i] == 2, ag[i] == 2);
        }
        for letter in b'A'..=b'Z' {
            let in_g = w(g).letters().iter().filter(|&&x| x == letter).count();
            let in_a = w(a).letters().iter().filter(|&&x| x == letter).count();
            let marked = (0..5).filter(|&i| w(g).letters()[i] == letter && ga[i] != 0).count();
            assert_eq!(marked, in_g.min(in_a));
        }
    }
}

#[test]
fn further_clues_keep_candidate_order() {
    let answers = vec![w("THERE"), w("ABACK"), w("THREE"), w("ETHER"), w("CRANE")];
    let solver = Solver::new(answers.clone(), answers);
    let history = vec![true_clue("EERIE", "THERE")];
    let before = solver.candidates(&history);
    let mut longer = history.clone();
    longer.push(true_clue("CRANE", "THERE"));
    let after = solver.candidates(&longer);
    let kept: Vec<Word> = before.iter().copied().filter(|c| after.contains(c)).collect();
    assert_eq!(after, kept);
}

#[test]
fn hard_mode_plan_holds_only_allowed_guesses() {
    let answers = vec![w("ABACK"), w("PLANK"), w("QUACK"), w("FLAME")];
    let mut guesses = answers.clone();
    guesses.extend([w("BEARD"), w("CRANE"), w("STOMP")]);
    let solver = Solver::new(answers.clone(), guesses);
    let history = vec![clue("SHARD", "BBGBB")];
    let candidates = solver.candidates(&history);
    match solver.scoring_plan(&history, &candidates, true, 10) {
        ScoringPlan::Ranked(words) => {
            assert!(!words.is_empty());
            for word in words {
                assert!(solver.is_valid_guess(word));
                assert!(obeys_hard_mode(word, &history));
            }
        }
        _ => panic!("more than two candidates are ranked"),
    }
}
