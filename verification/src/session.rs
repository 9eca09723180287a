use vstd::prelude::*;

use crate::cli::str_equals;
use crate::pattern::{parse_outcome, Pattern, SOLVED_PATTERN};
use crate::solver::{
    consistent_with, feedback, feedback_code, hard_mode_allows, lemma_answer_stays_candidate,
    lemma_candidate_iff, obeys_hard_mode, GuessFeedback, Solver,
};
use crate::text::{split_upper_tokens, upper_tokens};
use crate::word::{char_codes, lemma_word_view_injective, spells_upper_word, word_text, Word};
use vstd::string::*;

verus! {

/// Whether some word in `ws` has the letters `v`.
pub open spec fn has_word(ws: Seq<Word>, v: Seq<u8>) -> bool {
    exists|i: int| 0 <= i < ws.len() && (#[trigger] ws[i])@ == v
}

proof fn lemma_command_words_distinct()
    ensures
        "OFF"@ != "ON"@,
        "EXIT"@ != "QUIT"@,
        "UNDO"@ != "QUIT"@,
        "UNDO"@ != "EXIT"@,
        "RESET"@ != "QUIT"@,
        "RESET"@ != "EXIT"@,
        "RESET"@ != "UNDO"@,
        "LIST"@ != "QUIT"@,
        "LIST"@ != "EXIT"@,
        "LIST"@ != "UNDO"@,
        "LIST"@ != "RESET"@,
        seq!["EXIT"@] != seq!["QUIT"@],
        seq!["UNDO"@] != seq!["QUIT"@],
        seq!["UNDO"@] != seq!["EXIT"@],
        seq!["RESET"@] != seq!["QUIT"@],
        seq!["RESET"@] != seq!["EXIT"@],
        seq!["RESET"@] != seq!["UNDO"@],
        seq!["LIST"@] != seq!["QUIT"@],
        seq!["LIST"@] != seq!["EXIT"@],
        seq!["LIST"@] != seq!["UNDO"@],
        seq!["LIST"@] != seq!["RESET"@],
{
    reveal_strlit("ON");
    reveal_strlit("OFF");
    reveal_strlit("QUIT");
    reveal_strlit("EXIT");
    reveal_strlit("UNDO");
    reveal_strlit("RESET");
    reveal_strlit("LIST");
    assert("OFF"@.len() != "ON"@.len());
    assert("EXIT"@[0] != "QUIT"@[0]);
    assert("UNDO"@[0] != "QUIT"@[0]);
    assert("UNDO"@[0] != "EXIT"@[0]);
    assert("RESET"@.len() != "QUIT"@.len());
    assert("RESET"@.len() != "EXIT"@.len());
    assert("RESET"@.len() != "UNDO"@.len());
    assert("LIST"@[0] != "QUIT"@[0]);
    assert("LIST"@[0] != "EXIT"@[0]);
    assert("LIST"@[0] != "UNDO"@[0]);
    assert("LIST"@.len() != "RESET"@.len());
    assert(seq!["EXIT"@][0] != seq!["QUIT"@][0]);
    assert(seq!["UNDO"@][0] != seq!["QUIT"@][0]);
    assert(seq!["UNDO"@][0] != seq!["EXIT"@][0]);
    assert(seq!["RESET"@][0] != seq!["QUIT"@][0]);
    assert(seq!["RESET"@][0] != seq!["EXIT"@][0]);
    assert(seq!["RESET"@][0] != seq!["UNDO"@][0]);
    assert(seq!["LIST"@][0] != seq!["QUIT"@][0]);
    assert(seq!["LIST"@][0] != seq!["EXIT"@][0]);
    assert(seq!["LIST"@][0] != seq!["UNDO"@][0]);
    assert(seq!["LIST"@][0] != seq!["RESET"@][0]);
}

/// What one line typed in a game does, by views.
pub enum LineEffect {
    Ignored,
    Quit,
    Undone,
    NothingToUndo,
    Cleared,
    ListRequested,
    HardModeOn,
    HardModeOff,
    MissingPattern,
    TooManyFields,
    InvalidGuess(Seq<char>),
    NotInGuessList(Seq<u8>),
    BadPattern(Seq<char>),
    HardModeViolation(Seq<u8>),
    Accepted(Seq<u8>, int),
}

/// What the line whose upper-cased words are `t` does, in a game with clues
/// `history`, hard mode on or off, and allowed guesses `guesses`.
pub open spec fn line_effect(t: Seq<Seq<char>>, history: Seq<GuessFeedback>, hard_mode: bool, guesses: Seq<Word>) -> LineEffect {
    if t.len() == 0 {
        LineEffect::Ignored
    } else if t == seq!["QUIT"@] || t == seq!["EXIT"@] {
        LineEffect::Quit
    } else if t == seq!["UNDO"@] {
        if history.len() > 0 {
            LineEffect::Undone
        } else {
            LineEffect::NothingToUndo
        }
    } else if t == seq!["RESET"@] {
        LineEffect::Cleared
    } else if t == seq!["LIST"@] {
        LineEffect::ListRequested
    } else if t == seq!["HARD"@, "ON"@] {
        LineEffect::HardModeOn
    } else if t == seq!["HARD"@, "OFF"@] {
        LineEffect::HardModeOff
    } else if t.len() == 1 {
        LineEffect::MissingPattern
    } else if t.len() > 2 {
        LineEffect::TooManyFields
    } else if !spells_upper_word(t[0]) {
        LineEffect::InvalidGuess(t[0])
    } else {
        let v = char_codes(t[0]);
        if !has_word(guesses, v) {
            LineEffect::NotInGuessList(v)
        } else {
            match parse_outcome(t[1]) {
                Err(m) => LineEffect::BadPattern(m),
                Ok(code) => if hard_mode && !hard_mode_allows(v, history) {
                    LineEffect::HardModeViolation(v)
                } else {
                    LineEffect::Accepted(v, code)
                },
            }
        }
    }
}

/// What handling one line did.
pub enum LineOutcome {
    /// The line was blank.
    Ignored,
    /// The player wants to stop.
    Quit,
    /// The last clue was removed.
    Undone,
    /// There was no clue to remove.
    NothingToUndo,
    /// Every clue was removed.
    Cleared,
    /// The player wants to see the candidates.
    ListRequested,
    /// Hard mode was switched on.
    HardModeOn,
    /// Hard mode was switched off.
    HardModeOff,
    /// Only a guess was given, without its pattern.
    MissingPattern,
    /// More than a guess and a pattern were given.
    TooManyFields,
    /// The guess, as typed (upper-cased), is not a five-letter word.
    InvalidGuess(String),
    /// The guess is not an allowed guess.
    NotInGuessList(Word),
    /// The pattern cannot be read; the message says why.
    BadPattern(String),
    /// Hard mode is on and the guess ignores a revealed clue.
    HardModeViolation(Word),
    /// The clue was recorded.
    Accepted(GuessFeedback),
}

/// What `outcome` reports, by views.
pub open spec fn outcome_effect(outcome: LineOutcome) -> LineEffect {
    match outcome {
        LineOutcome::Ignored => LineEffect::Ignored,
        LineOutcome::Quit => LineEffect::Quit,
        LineOutcome::Undone => LineEffect::Undone,
        LineOutcome::NothingToUndo => LineEffect::NothingToUndo,
        LineOutcome::Cleared => LineEffect::Cleared,
        LineOutcome::ListRequested => LineEffect::ListRequested,
        LineOutcome::HardModeOn => LineEffect::HardModeOn,
        LineOutcome::HardModeOff => LineEffect::HardModeOff,
        LineOutcome::MissingPattern => LineEffect::MissingPattern,
        LineOutcome::TooManyFields => LineEffect::TooManyFields,
        LineOutcome::InvalidGuess(s) => LineEffect::InvalidGuess(s@),
        LineOutcome::NotInGuessList(w) => LineEffect::NotInGuessList(w@),
        LineOutcome::BadPattern(m) => LineEffect::BadPattern(m@),
        LineOutcome::HardModeViolation(w) => LineEffect::HardModeViolation(w@),
        LineOutcome::Accepted(e) => LineEffect::Accepted(e.guess@, e.pattern@),
    }
}

/// The clues after `effect`, given those before.
pub open spec fn history_after(effect: LineEffect, history: Seq<GuessFeedback>, outcome: LineOutcome) -> Seq<GuessFeedback> {
    match effect {
        LineEffect::Undone => history.drop_last(),
        LineEffect::Cleared => Seq::empty(),
        LineEffect::Accepted(_, _) => match outcome {
            LineOutcome::Accepted(e) => history.push(e),
            _ => history,
        },
        _ => history,
    }
}

/// Whether hard mode is on after `effect`, given whether it was on before.
pub open spec fn hard_mode_after(effect: LineEffect, hard_mode: bool) -> bool {
    match effect {
        LineEffect::HardModeOn => true,
        LineEffect::HardModeOff => false,
        _ => hard_mode,
    }
}

/// The state of an interactive game: the clues entered so far, and whether
/// hard mode is on.
pub struct Session {
    pub history: Vec<GuessFeedback>,
    pub hard_mode: bool,
}

fn tokens_are(tokens: &Vec<String>, a: &str) -> (b: bool)
    ensures
        b == (tokens@.map_values(|t: String| t@) == seq![a@]),
{
    let ghost t = tokens@.map_values(|t: String| t@);
    if tokens.len() != 1 {
        assert(t.len() != seq![a@].len());
        return false;
    }
    let eq = str_equals(tokens[0].as_str(), a);
    proof {
        assert(t[0] == tokens@[0]@);
        if eq {
            assert(t =~= seq![a@]);
        } else {
            assert(t[0] != seq![a@][0]);
        }
    }
    eq
}

fn tokens_are_pair(tokens: &Vec<String>, a: &str, b: &str) -> (r: bool)
    ensures
        r == (tokens@.map_values(|t: String| t@) == seq![a@, b@]),
{
    let ghost t = tokens@.map_values(|t: String| t@);
    if tokens.len() != 2 {
        assert(t.len() != seq![a@, b@].len());
        return false;
    }
    let eq0 = str_equals(tokens[0].as_str(), a);
    let eq1 = str_equals(tokens[1].as_str(), b);
    proof {
        assert(t[0] == tokens@[0]@);
        assert(t[1] == tokens@[1]@);
        if eq0 && eq1 {
            assert(t =~= seq![a@, b@]);
        } else if !eq0 {
            assert(t[0] != seq![a@, b@][0]);
        } else {
            assert(t[1] != seq![a@, b@][1]);
        }
    }
    eq0 && eq1
}

impl Session {
    /// A game with no clues yet.
    pub fn new(hard_mode: bool) -> (s: Session)
        ensures
            s.history@.len() == 0,
            s.hard_mode == hard_mode,
    {
        Session { history: Vec::new(), hard_mode }
    }

    /// Handles one line typed by the player: a command (`QUIT` or `EXIT`, `UNDO`,
    /// `RESET`, `LIST`, `HARD ON`, `HARD OFF`) or a guess and the pattern it got
    /// (`CRANE BYBBB`), case-insensitively.
    pub fn handle_line(&mut self, solver: &Solver, line: &str) -> (outcome: LineOutcome)
        ensures
            outcome_effect(outcome) == line_effect(upper_tokens(line@), old(self).history@, old(self).hard_mode, solver.guesses()),
            final(self).history@ == history_after(outcome_effect(outcome), old(self).history@, outcome),
            final(self).hard_mode == hard_mode_after(outcome_effect(outcome), old(self).hard_mode),
            !(outcome is Undone || outcome is Cleared || outcome is Accepted) ==> final(self).history@ == old(
                self,
            ).history@,
            outcome is Undone ==> old(self).history@.len() > 0 && final(self).history@ == old(
                self,
            ).history@.drop_last(),
            outcome is Cleared ==> final(self).history@.len() == 0,
            outcome matches LineOutcome::Accepted(e) ==> final(self).history@ == old(self).history@.push(e),
            !(outcome is HardModeOn || outcome is HardModeOff) ==> final(self).hard_mode == old(self).hard_mode,
            outcome is HardModeOn ==> final(self).hard_mode,
            outcome is HardModeOff ==> !final(self).hard_mode,
            upper_tokens(line@).len() == 0 ==> outcome is Ignored && final(self).history@ == old(self).history@,
            upper_tokens(line@) == seq!["QUIT"@] || upper_tokens(line@) == seq!["EXIT"@] ==> outcome is Quit
                && final(self).history@ == old(self).history@,
            upper_tokens(line@) == seq!["UNDO"@] && old(self).history@.len() > 0 ==> outcome is Undone
                && final(self).history@ == old(self).history@.drop_last(),
            upper_tokens(line@) == seq!["UNDO"@] && old(self).history@.len() == 0 ==> outcome is NothingToUndo
                && final(self).history@ == old(self).history@,
            upper_tokens(line@) == seq!["RESET"@] ==> outcome is Cleared && final(self).history@.len() == 0,
            upper_tokens(line@) == seq!["LIST"@] ==> outcome is ListRequested && final(self).history@ == old(
                self,
            ).history@,
            outcome matches LineOutcome::Accepted(e) ==> {
                &&& upper_tokens(line@).len() == 2
                &&& e.guess@ == char_codes(upper_tokens(line@)[0])
                &&& solver.guesses().contains(e.guess)
                &&& parse_outcome(upper_tokens(line@)[1]) == Ok::<int, Seq<char>>(e.pattern@)
                &&& old(self).hard_mode ==> hard_mode_allows(e.guess@, old(self).history@)
            },
            upper_tokens(line@) == seq!["HARD"@, "ON"@] ==> outcome is HardModeOn && final(self).hard_mode
                && final(self).history@ == old(self).history@,
            upper_tokens(line@) == seq!["HARD"@, "OFF"@] ==> outcome is HardModeOff && !final(self).hard_mode
                && final(self).history@ == old(self).history@,
    {
        proof {
            lemma_command_words_distinct();
        }
        let tokens = split_upper_tokens(line);
        let ghost t = tokens@.map_values(|t: String| t@);
        let ghost h = self.history@;
        if tokens.len() == 0 {
            return LineOutcome::Ignored;
        }
        if tokens_are(&tokens, "QUIT") || tokens_are(&tokens, "EXIT") {
            return LineOutcome::Quit;
        }
        if tokens_are(&tokens, "UNDO") {
            if self.history.len() > 0 {
                let _ = self.history.pop();
                proof {
                    assert(self.history@ =~= h.drop_last());
                }
                return LineOutcome::Undone;
            }
            return LineOutcome::NothingToUndo;
        }
        if tokens_are(&tokens, "RESET") {
            self.history.clear();
            return LineOutcome::Cleared;
        }
        if tokens_are(&tokens, "LIST") {
            return LineOutcome::ListRequested;
        }
        if tokens_are_pair(&tokens, "HARD", "ON") {
            self.hard_mode = true;
            return LineOutcome::HardModeOn;
        }
        if tokens_are_pair(&tokens, "HARD", "OFF") {
            self.hard_mode = false;
            return LineOutcome::HardModeOff;
        }
        if tokens.len() == 1 {
            return LineOutcome::MissingPattern;
        }
        if tokens.len() > 2 {
            return LineOutcome::TooManyFields;
        }
        assert(t[0] == tokens@[0]@ && t[1] == tokens@[1]@);
        let guess = match Word::parse_upper_ascii(tokens[0].as_str()) {
            Some(w) => w,
            None => {
                let raw = tokens[0].clone();
                return LineOutcome::InvalidGuess(raw);
            },
        };
        let valid = solver.is_valid_guess(guess);
        proof {
            if has_word(solver.guesses(), guess@) {
                let i = choose|i: int| 0 <= i < solver.guesses().len() && (#[trigger] solver.guesses()[i])@ == guess@;
                lemma_word_view_injective(solver.guesses()[i], guess);
            }
            if solver.guesses().contains(guess) {
                let i = choose|i: int| 0 <= i < solver.guesses().len() && solver.guesses()[i] == guess;
                assert(solver.guesses()[i]@ == guess@);
            }
        }
        if !valid {
            return LineOutcome::NotInGuessList(guess);
        }
        let pattern = match Pattern::parse(tokens[1].as_str()) {
            Ok(p) => p,
            Err(message) => {
                return LineOutcome::BadPattern(message);
            },
        };
        if self.hard_mode && !obeys_hard_mode(guess, self.history.as_slice()) {
            return LineOutcome::HardModeViolation(guess);
        }
        let entry = GuessFeedback { guess, pattern };
        self.history.push(entry);
        LineOutcome::Accepted(entry)
    }
}


/// Typing `UNDO` right after a clue was accepted takes that clue back.
pub proof fn lemma_undo_takes_back_clue(
    history: Seq<GuessFeedback>,
    entry: GuessFeedback,
    hard_mode: bool,
    guesses: Seq<Word>,
    outcome: LineOutcome,
)
    ensures
        line_effect(seq!["UNDO"@], history.push(entry), hard_mode, guesses) == LineEffect::Undone,
        history_after(LineEffect::Undone, history.push(entry), outcome) == history,
{
    reveal_strlit("UNDO");
    reveal_strlit("QUIT");
    reveal_strlit("EXIT");
    assert(seq!["UNDO"@][0][0] != seq!["QUIT"@][0][0]);
    assert(seq!["UNDO"@][0][0] != seq!["EXIT"@][0][0]);
    assert(history.push(entry).drop_last() =~= history);
}

/// What a simulated turn showed.
pub enum TurnOutcome {
    /// The guess was the answer.
    Solved(Pattern),
    /// No possible answer agrees with the clues any more.
    NoCandidates(Pattern),
    /// The game goes on with these candidates.
    Continue(Pattern, Vec<Word>),
}

/// The pattern a simulated turn showed.
pub open spec fn turn_pattern(outcome: TurnOutcome) -> Pattern {
    match outcome {
        TurnOutcome::Solved(p) => p,
        TurnOutcome::NoCandidates(p) => p,
        TurnOutcome::Continue(p, _) => p,
    }
}

/// Message for a simulated answer that is not a possible answer.
pub open spec fn unknown_answer_text(answer: Seq<u8>) -> Seq<char> {
    "Simulation answer '"@ + word_text(answer) + "' is not in the official answer list."@
}

/// Message for a starting word that may not be guessed.
pub open spec fn invalid_start_text(start: Seq<u8>) -> Seq<char> {
    "Starting word '"@ + word_text(start) + "' is not a valid guess."@
}

/// Checks the set-up of a simulated game: the answer must be a possible answer
/// and a given starting word must be an allowed guess. Gives back the starting
/// word, if one was given.
pub fn simulation_opening(solver: &Solver, answer: Word, start: Option<Word>) -> (r: Result<Option<Word>, String>)
    ensures
        !solver.answers().contains(answer) ==> (r matches Err(e) && e@ == unknown_answer_text(answer@)),
        solver.answers().contains(answer) && start is Some && !solver.guesses().contains(start->0) ==> (r matches Err(e)
            && e@ == invalid_start_text(start->0@)),
        solver.answers().contains(answer) && (start is None || solver.guesses().contains(start->0)) ==> r == Ok::<
            Option<Word>,
            String,
        >(start),
{
    if !solver.is_possible_answer(answer) {
        let mut message = String::from_str("Simulation answer '");
        let text = answer.to_string();
        message.append(text.as_str());
        message.append("' is not in the official answer list.");
        return Err(message);
    }
    if let Some(s) = start {
        if !solver.is_valid_guess(s) {
            let mut message = String::from_str("Starting word '");
            let text = s.to_string();
            message.append(text.as_str());
            message.append("' is not a valid guess.");
            return Err(message);
        }
    }
    Ok(start)
}

/// Plays `guess` against `answer` in a simulated game: records the clue it
/// gets and reports whether the game is won, stuck, or goes on with the
/// remaining candidates.
pub fn simulation_turn(solver: &Solver, answer: Word, history: &mut Vec<GuessFeedback>, guess: Word) -> (outcome: TurnOutcome)
    ensures
        turn_pattern(outcome)@ == feedback_code(guess@, answer@),
        final(history)@ == old(history)@.push(GuessFeedback { guess, pattern: turn_pattern(outcome) }),
        (outcome is Solved) <==> turn_pattern(outcome)@ == SOLVED_PATTERN,
        (outcome is NoCandidates) <==> (turn_pattern(outcome)@ != SOLVED_PATTERN && solver.answers().filter(
            |c: Word| consistent_with(final(history)@, c@),
        ).len() == 0),
        outcome matches TurnOutcome::Continue(_, c) ==> c@ == solver.answers().filter(
            |c: Word| consistent_with(final(history)@, c@),
        ),
        solver.answers().contains(answer) && consistent_with(old(history)@, answer@) ==> !(outcome is NoCandidates),
{
    let pattern = feedback(guess, answer);
    let ghost old_history = history@;
    history.push(GuessFeedback { guess, pattern });
    proof {
        if consistent_with(old_history, answer@) {
            assert forall|k: int| 0 <= k < history@.len() implies feedback_code(#[trigger] history@[k].guess@, answer@)
                == history@[k].pattern@ by {
                if k < old_history.len() {
                    assert(history@[k] == old_history[k]);
                }
            }
        }
    }
    if pattern.is_solved() {
        return TurnOutcome::Solved(pattern);
    }
    let candidates = solver.candidates(history.as_slice());
    proof {
        if solver.answers().contains(answer) && consistent_with(old_history, answer@) {
            lemma_candidate_iff(solver.answers(), history@, answer);
            assert(candidates@.contains(answer));
        }
    }
    if candidates.len() == 0 {
        return TurnOutcome::NoCandidates(pattern);
    }
    TurnOutcome::Continue(pattern, candidates)
}


/// Only undoing, resetting and an accepted clue change the clues; every other
/// line (commands such as `HARD ON`, `HARD OFF`, `LIST`, and rejected input)
/// leaves them as they were.
pub proof fn lemma_other_lines_keep_history(effect: LineEffect, history: Seq<GuessFeedback>, outcome: LineOutcome)
    requires
        !(effect is Undone || effect is Cleared || effect is Accepted),
    ensures
        history_after(effect, history, outcome) == history,
{
}

/// `HARD ON` and `HARD OFF` switch hard mode whatever the clues are, and keep
/// the clues.
pub proof fn lemma_hard_mode_switch_keeps_history(
    history: Seq<GuessFeedback>,
    hard_mode: bool,
    guesses: Seq<Word>,
    outcome: LineOutcome,
)
    ensures
        line_effect(seq!["HARD"@, "ON"@], history, hard_mode, guesses) == LineEffect::HardModeOn,
        line_effect(seq!["HARD"@, "OFF"@], history, hard_mode, guesses) == LineEffect::HardModeOff,
        history_after(LineEffect::HardModeOn, history, outcome) == history,
        history_after(LineEffect::HardModeOff, history, outcome) == history,
        hard_mode_after(LineEffect::HardModeOn, hard_mode),
        !hard_mode_after(LineEffect::HardModeOff, hard_mode),
{
    reveal_strlit("ON");
    reveal_strlit("OFF");
    assert(seq!["HARD"@, "OFF"@][1].len() != seq!["HARD"@, "ON"@][1].len());
}

}
