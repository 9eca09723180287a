use vstd::prelude::*;

use crate::pattern::{encode_marks, lemma_pattern_view_injective, marks_of, valid_marks, Pattern};
use crate::word::{is_word, lemma_word_key_injective, lemma_word_view_injective, word_key, Word, WORD_LEN};
use crate::ranking::{is_ranking, is_reduced_pool, pool_cap, reduce_guess_pool, FULL_POOL_LIMIT, MAX_CANDIDATES};
use std::collections::HashSet;

verus! {

/// How many of the first `n` tiles are not green and show letter `l` in the guess.
pub open spec fn unmatched_guess_count(g: Seq<u8>, a: Seq<u8>, l: u8, n: int) -> nat
    decreases n,
{
    if n <= 0 {
        0
    } else {
        unmatched_guess_count(g, a, l, n - 1) + if g[n - 1] != a[n - 1] && g[n - 1] == l {
            1nat
        } else {
            0nat
        }
    }
}

/// How many of the first `n` tiles are not green and hide letter `l` in the answer.
pub open spec fn unmatched_answer_count(g: Seq<u8>, a: Seq<u8>, l: u8, n: int) -> nat
    decreases n,
{
    if n <= 0 {
        0
    } else {
        unmatched_answer_count(g, a, l, n - 1) + if g[n - 1] != a[n - 1] && a[n - 1] == l {
            1nat
        } else {
            0nat
        }
    }
}

/// The mark of tile `i` when `g` is guessed and `a` is the answer: green where the
/// letters agree; otherwise yellow while the answer still has an unmatched copy of
/// the letter that no earlier unmatched tile of the guess has taken; else black.
pub open spec fn feedback_mark(g: Seq<u8>, a: Seq<u8>, i: int) -> u8 {
    if g[i] == a[i] {
        2
    } else if unmatched_guess_count(g, a, g[i], i) < unmatched_answer_count(g, a, g[i], WORD_LEN as int) {
        1
    } else {
        0
    }
}

/// The marks of all tiles when `g` is guessed and `a` is the answer.
pub open spec fn feedback_marks(g: Seq<u8>, a: Seq<u8>) -> Seq<u8> {
    Seq::new(WORD_LEN as nat, |i: int| feedback_mark(g, a, i))
}

/// The code of the pattern shown when `g` is guessed and `a` is the answer.
pub open spec fn feedback_code(g: Seq<u8>, a: Seq<u8>) -> int {
    encode_marks(feedback_marks(g, a))
}

proof fn lemma_unmatched_counts_bounded(g: Seq<u8>, a: Seq<u8>, l: u8, n: int)
    requires
        0 <= n,
    ensures
        unmatched_guess_count(g, a, l, n) <= n,
        unmatched_answer_count(g, a, l, n) <= n,
    decreases n,
{
    if n > 0 {
        lemma_unmatched_counts_bounded(g, a, l, n - 1);
    }
}

/// The colours that Wordle shows for `guess` when the hidden word is `answer`.
pub fn feedback(guess: Word, answer: Word) -> (p: Pattern)
    ensures
        p@ == feedback_code(guess@, answer@),
        forall|i: int| 0 <= i < WORD_LEN ==> (#[trigger] marks_of(p@)[i] == 2) == (guess@[i] == answer@[i]),
        forall|l: u8|
            #[trigger] revealed_count(guess@, marks_of(p@), l, WORD_LEN as int) == if letter_count(
                guess@,
                l,
                WORD_LEN as int,
            ) < letter_count(answer@, l, WORD_LEN as int) {
                letter_count(guess@, l, WORD_LEN as int)
            } else {
                letter_count(answer@, l, WORD_LEN as int)
            },
        forall|i: int, j: int|
            0 <= i < j < WORD_LEN && guess@[i] == guess@[j] && guess@[i] != answer@[i] && guess@[j] != answer@[j]
                && #[trigger] marks_of(p@)[j] == 1 ==> #[trigger] marks_of(p@)[i] == 1,
{
    let _ = guess.letters();
    let _ = answer.letters();
    let p = marks_for(guess, answer);
    proof {
        lemma_feedback_characterized(guess@, answer@);
    }
    p
}

/// The pattern of `feedback`, computed with a count of the answer's unmatched letters.
fn marks_for(guess: Word, answer: Word) -> (p: Pattern)
    ensures
        p@ == feedback_code(guess@, answer@),
{
    let g = guess.letters();
    let a = answer.letters();
    let ghost gs = guess@;
    let ghost as_ = answer@;

    let mut marks: [u8; 5] = [0u8; 5];
    let mut available: [u8; 26] = [0u8; 26];

    let mut i: usize = 0;
    while i < WORD_LEN
        invariant
            g@ == gs,
            a@ == as_,
            is_word(gs),
            is_word(as_),
            i <= WORD_LEN,
            forall|l: int|
                0 <= l < 26 ==> #[trigger] available@[l] == unmatched_answer_count(gs, as_, (l + 65) as u8, i as int),
            forall|j: int| 0 <= j < WORD_LEN ==> #[trigger] marks@[j] == if j < i && gs[j] == as_[j] {
                2u8
            } else {
                0u8
            },
        decreases WORD_LEN - i,
    {
        proof {
            assert forall|l: int| 0 <= l < 26 implies #[trigger] available@[l] < 5 by {
                lemma_unmatched_counts_bounded(gs, as_, (l + 65) as u8, i as int);
            }
        }
        if g[i] == a[i] {
            marks[i] = 2;
        } else {
            let index = (a[i] - 65) as usize;
            let count = available[index];
            available[index] = count + 1;
        }
        i += 1;
    }

    let mut i: usize = 0;
    while i < WORD_LEN
        invariant
            g@ == gs,
            a@ == as_,
            is_word(gs),
            is_word(as_),
            i <= WORD_LEN,
            forall|l: int|
                0 <= l < 26 ==> {
                    let total = unmatched_answer_count(gs, as_, (l + 65) as u8, WORD_LEN as int);
                    let taken = unmatched_guess_count(gs, as_, (l + 65) as u8, i as int);
                    #[trigger] available@[l] == if taken < total {
                        total - taken
                    } else {
                        0
                    }
                },
            forall|j: int| 0 <= j < WORD_LEN ==> #[trigger] marks@[j] == if j < i {
                feedback_mark(gs, as_, j)
            } else if gs[j] == as_[j] {
                2u8
            } else {
                0u8
            },
        decreases WORD_LEN - i,
    {
        if marks[i] == 0 {
            let letter_index = (g[i] - 65) as usize;
            if available[letter_index] > 0 {
                marks[i] = 1;
                let count = available[letter_index];
                available[letter_index] = count - 1;
            }
        }
        i += 1;
    }
    proof {
        assert(marks@ =~= feedback_marks(gs, as_));
    }
    Pattern::from_marks(marks)
}


/// How many of the first `n` tiles show letter `l` in the guess and are green.
pub open spec fn green_count(g: Seq<u8>, a: Seq<u8>, l: u8, n: int) -> nat
    decreases n,
{
    if n <= 0 {
        0
    } else {
        green_count(g, a, l, n - 1) + if g[n - 1] == a[n - 1] && g[n - 1] == l {
            1nat
        } else {
            0nat
        }
    }
}

/// How many of the first `n` tiles show letter `l` in the guess and are coloured
/// (green or yellow).
pub open spec fn coloured_count(g: Seq<u8>, a: Seq<u8>, l: u8, n: int) -> nat
    decreases n,
{
    if n <= 0 {
        0
    } else {
        coloured_count(g, a, l, n - 1) + if g[n - 1] == l && feedback_mark(g, a, n - 1) != 0 {
            1nat
        } else {
            0nat
        }
    }
}

proof fn lemma_coloured_count_split(g: Seq<u8>, a: Seq<u8>, l: u8, n: int)
    requires
        0 <= n <= WORD_LEN,
        g.len() == WORD_LEN,
        a.len() == WORD_LEN,
    ensures
        coloured_count(g, a, l, n) == green_count(g, a, l, n) + if unmatched_guess_count(g, a, l, n)
            < unmatched_answer_count(g, a, l, WORD_LEN as int) {
            unmatched_guess_count(g, a, l, n)
        } else {
            unmatched_answer_count(g, a, l, WORD_LEN as int)
        },
    decreases n,
{
    if n > 0 {
        lemma_coloured_count_split(g, a, l, n - 1);
    }
}

proof fn lemma_letter_count_split(g: Seq<u8>, a: Seq<u8>, l: u8, n: int)
    requires
        0 <= n <= WORD_LEN,
    ensures
        letter_count(a, l, n) == green_count(g, a, l, n) + unmatched_answer_count(g, a, l, n),
    decreases n,
{
    if n > 0 {
        lemma_letter_count_split(g, a, l, n - 1);
    }
}

/// For every letter, the guess's coloured tiles of that letter are its green
/// tiles of that letter plus as many yellow ones as the fewer of: its unmatched
/// copies in the guess, and its unmatched copies in the answer. So no letter is
/// coloured more often than the answer holds it.
pub proof fn lemma_coloured_letters_bounded(g: Seq<u8>, a: Seq<u8>, l: u8)
    requires
        g.len() == WORD_LEN,
        a.len() == WORD_LEN,
    ensures
        coloured_count(g, a, l, WORD_LEN as int) == green_count(g, a, l, WORD_LEN as int) + if unmatched_guess_count(
            g,
            a,
            l,
            WORD_LEN as int,
        ) < unmatched_answer_count(g, a, l, WORD_LEN as int) {
            unmatched_guess_count(g, a, l, WORD_LEN as int)
        } else {
            unmatched_answer_count(g, a, l, WORD_LEN as int)
        },
        coloured_count(g, a, l, WORD_LEN as int) <= letter_count(a, l, WORD_LEN as int),
{
    lemma_coloured_count_split(g, a, l, WORD_LEN as int);
    lemma_letter_count_split(g, a, l, WORD_LEN as int);
}

proof fn lemma_guess_letter_count_split(g: Seq<u8>, a: Seq<u8>, l: u8, n: int)
    requires
        0 <= n <= WORD_LEN,
    ensures
        letter_count(g, l, n) == green_count(g, a, l, n) + unmatched_guess_count(g, a, l, n),
    decreases n,
{
    if n > 0 {
        lemma_guess_letter_count_split(g, a, l, n - 1);
    }
}

/// How many of the first `n` tiles are coloured (green or yellow).
pub open spec fn coloured_tiles(g: Seq<u8>, a: Seq<u8>, n: int) -> nat
    decreases n,
{
    if n <= 0 {
        0
    } else {
        coloured_tiles(g, a, n - 1) + if feedback_mark(g, a, n - 1) != 0 {
            1nat
        } else {
            0nat
        }
    }
}

/// The sum over the letters below `l` of their coloured tiles among the first `n`.
pub open spec fn coloured_sum(g: Seq<u8>, a: Seq<u8>, n: int, l: int) -> nat
    decreases l,
{
    if l <= 0 {
        0
    } else {
        coloured_sum(g, a, n, l - 1) + coloured_count(g, a, (l - 1) as u8, n)
    }
}

proof fn lemma_coloured_sum_step(g: Seq<u8>, a: Seq<u8>, n: int, l: int)
    requires
        1 <= n <= WORD_LEN,
        0 <= l <= 256,
    ensures
        coloured_sum(g, a, n, l) == coloured_sum(g, a, n - 1, l) + if g[n - 1] < l && feedback_mark(g, a, n - 1)
            != 0 {
            1nat
        } else {
            0nat
        },
    decreases l,
{
    if l > 0 {
        lemma_coloured_sum_step(g, a, n, l - 1);
    }
}

proof fn lemma_coloured_tiles_by_letter(g: Seq<u8>, a: Seq<u8>, n: int)
    requires
        0 <= n <= WORD_LEN,
    ensures
        coloured_tiles(g, a, n) == coloured_sum(g, a, n, 256),
    decreases n,
{
    if n == 0 {
        lemma_coloured_sum_zero(g, a, 256);
    } else {
        lemma_coloured_tiles_by_letter(g, a, n - 1);
        lemma_coloured_sum_step(g, a, n, 256);
    }
}

proof fn lemma_coloured_sum_zero(g: Seq<u8>, a: Seq<u8>, l: int)
    requires
        0 <= l,
    ensures
        coloured_sum(g, a, 0, l) == 0,
    decreases l,
{
    if l > 0 {
        lemma_coloured_sum_zero(g, a, l - 1);
    }
}

proof fn lemma_coloured_sum_swap(g: Seq<u8>, a: Seq<u8>, l: int)
    requires
        0 <= l <= 256,
        g.len() == WORD_LEN,
        a.len() == WORD_LEN,
    ensures
        coloured_sum(g, a, WORD_LEN as int, l) == coloured_sum(a, g, WORD_LEN as int, l),
    decreases l,
{
    if l > 0 {
        lemma_coloured_sum_swap(g, a, l - 1);
        lemma_coloured_is_min(g, a, (l - 1) as u8);
        lemma_coloured_is_min(a, g, (l - 1) as u8);
    }
}

proof fn lemma_coloured_is_min(g: Seq<u8>, a: Seq<u8>, l: u8)
    requires
        g.len() == WORD_LEN,
        a.len() == WORD_LEN,
    ensures
        coloured_count(g, a, l, WORD_LEN as int) == if letter_count(g, l, WORD_LEN as int) < letter_count(
            a,
            l,
            WORD_LEN as int,
        ) {
            letter_count(g, l, WORD_LEN as int)
        } else {
            letter_count(a, l, WORD_LEN as int)
        },
{
    lemma_coloured_letters_bounded(g, a, l);
    lemma_letter_count_split(g, a, l, WORD_LEN as int);
    lemma_guess_letter_count_split(g, a, l, WORD_LEN as int);
}

/// Colouring is symmetric in guess and answer: each letter is coloured as often
/// as the fewer of its copies in the guess and in the answer; so `g` against `a`
/// and `a` against `g` colour each letter equally often, have their greens at the
/// same places, and colour the same number of tiles.
pub proof fn lemma_feedback_symmetric_counts(g: Seq<u8>, a: Seq<u8>)
    requires
        g.len() == WORD_LEN,
        a.len() == WORD_LEN,
    ensures
        forall|l: u8|
            #[trigger] coloured_count(g, a, l, WORD_LEN as int) == if letter_count(g, l, WORD_LEN as int)
                < letter_count(a, l, WORD_LEN as int) {
                letter_count(g, l, WORD_LEN as int)
            } else {
                letter_count(a, l, WORD_LEN as int)
            },
        forall|l: u8| #[trigger] coloured_count(g, a, l, WORD_LEN as int) == coloured_count(a, g, l, WORD_LEN as int),
        forall|i: int| 0 <= i < WORD_LEN ==> (#[trigger] feedback_mark(g, a, i) == 2) == (feedback_mark(a, g, i) == 2),
        coloured_tiles(g, a, WORD_LEN as int) == coloured_tiles(a, g, WORD_LEN as int),
{
    assert forall|l: u8| #[trigger] coloured_count(g, a, l, WORD_LEN as int) == if letter_count(g, l, WORD_LEN as int)
        < letter_count(a, l, WORD_LEN as int) {
        letter_count(g, l, WORD_LEN as int)
    } else {
        letter_count(a, l, WORD_LEN as int)
    } by {
        lemma_coloured_is_min(g, a, l);
    }
    assert forall|l: u8| #[trigger] coloured_count(g, a, l, WORD_LEN as int) == coloured_count(a, g, l, WORD_LEN as int) by {
        lemma_coloured_is_min(g, a, l);
        lemma_coloured_is_min(a, g, l);
    }
    lemma_coloured_tiles_by_letter(g, a, WORD_LEN as int);
    lemma_coloured_tiles_by_letter(a, g, WORD_LEN as int);
    lemma_coloured_sum_swap(g, a, 256);
}

/// The marks that `feedback_code` encodes are the marks of the tiles.
pub proof fn lemma_feedback_marks_decode(g: Seq<u8>, a: Seq<u8>)
    ensures
        valid_marks(feedback_marks(g, a)),
        marks_of(feedback_code(g, a)) == feedback_marks(g, a),
        0 <= feedback_code(g, a) < crate::pattern::NUM_PATTERNS,
{
    assert(valid_marks(feedback_marks(g, a)));
    crate::pattern::lemma_marks_round_trip(0, feedback_marks(g, a));
}

/// A guess shows all green exactly when it is the answer.
pub proof fn lemma_all_green_iff_answer(g: Seq<u8>, a: Seq<u8>)
    requires
        is_word(g),
        is_word(a),
    ensures
        (feedback_code(g, a) == crate::pattern::SOLVED_PATTERN) <==> g == a,
{
    let m = feedback_marks(g, a);
    lemma_feedback_marks_decode(g, a);
    if feedback_code(g, a) == crate::pattern::SOLVED_PATTERN {
        assert(m[0] == 2 && m[1] == 2 && m[2] == 2 && m[3] == 2 && m[4] == 2);
        assert forall|i: int| 0 <= i < WORD_LEN implies g[i] == a[i] by {
            assert(m[i] == feedback_mark(g, a, i));
        }
        assert(g =~= a);
    }
    if g == a {
        assert(m[0] == 2 && m[1] == 2 && m[2] == 2 && m[3] == 2 && m[4] == 2);
    }
}

/// A guess that was played and the pattern it was answered with.
#[derive(Clone, Copy, Debug)]
pub struct GuessFeedback {
    pub guess: Word,
    pub pattern: Pattern,
}

/// How many of the first `n` letters of `w` are `l`.
pub open spec fn letter_count(w: Seq<u8>, l: u8, n: int) -> nat
    decreases n,
{
    if n <= 0 {
        0
    } else {
        letter_count(w, l, n - 1) + if w[n - 1] == l {
            1nat
        } else {
            0nat
        }
    }
}

/// How many of the first `n` tiles of an earlier guess `prior` were revealed
/// (green or yellow) with letter `l`, by `marks`.
pub open spec fn revealed_count(prior: Seq<u8>, marks: Seq<u8>, l: u8, n: int) -> nat
    decreases n,
{
    if n <= 0 {
        0
    } else {
        revealed_count(prior, marks, l, n - 1) + if marks[n - 1] != 0 && prior[n - 1] == l {
            1nat
        } else {
            0nat
        }
    }
}

/// Whether `guess` respects what one earlier guess `prior`, answered with `marks`,
/// revealed: every green letter stays in place, and every revealed letter is used
/// at least as often as it was revealed. Black tiles impose nothing.
pub open spec fn respects_clue(guess: Seq<u8>, prior: Seq<u8>, marks: Seq<u8>) -> bool {
    &&& forall|i: int| 0 <= i < WORD_LEN && marks[i] == 2 ==> #[trigger] guess[i] == prior[i]
    &&& forall|l: u8|
        #[trigger] revealed_count(prior, marks, l, WORD_LEN as int) <= letter_count(guess, l, WORD_LEN as int)
}

/// Whether `guess` is allowed in hard mode after `history`.
pub open spec fn hard_mode_allows(guess: Seq<u8>, history: Seq<GuessFeedback>) -> bool {
    forall|k: int|
        0 <= k < history.len() ==> respects_clue(
            guess,
            #[trigger] history[k].guess@,
            marks_of(history[k].pattern@),
        )
}

proof fn lemma_letter_count_bounded(w: Seq<u8>, l: u8, n: int)
    requires
        0 <= n,
    ensures
        letter_count(w, l, n) <= n,
    decreases n,
{
    if n > 0 {
        lemma_letter_count_bounded(w, l, n - 1);
    }
}

proof fn lemma_revealed_count_bounded(p: Seq<u8>, m: Seq<u8>, l: u8, n: int)
    requires
        0 <= n,
    ensures
        revealed_count(p, m, l, n) <= n,
    decreases n,
{
    if n > 0 {
        lemma_revealed_count_bounded(p, m, l, n - 1);
    }
}

proof fn lemma_revealed_count_non_letter(p: Seq<u8>, m: Seq<u8>, l: u8, n: int)
    requires
        0 <= n <= WORD_LEN,
        is_word(p),
        !(65 <= l <= 90),
    ensures
        revealed_count(p, m, l, n) == 0,
    decreases n,
{
    if n > 0 {
        lemma_revealed_count_non_letter(p, m, l, n - 1);
    }
}

/// Whether `guess` may be played in hard mode after `history`: it keeps every
/// green letter in place and reuses every revealed letter at least as often.
#[verifier::loop_isolation(false)]
pub fn obeys_hard_mode(guess: Word, history: &[GuessFeedback]) -> (b: bool)
    ensures
        b == hard_mode_allows(guess@, history@),
        b == forall|k: int|
            0 <= k < history@.len() ==> respects_clue(
                guess@,
                #[trigger] history@[k].guess@,
                marks_of(history@[k].pattern@),
            ),
{
    let g = guess.letters();
    let ghost gs = guess@;
    let mut have: [u8; 26] = [0u8; 26];
    let mut i: usize = 0;
    while i < WORD_LEN
        invariant
            g@ == gs,
            is_word(gs),
            i <= WORD_LEN,
            forall|l: int| 0 <= l < 26 ==> #[trigger] have@[l] == letter_count(gs, (l + 65) as u8, i as int),
        decreases WORD_LEN - i,
    {
        proof {
            assert forall|l: int| 0 <= l < 26 implies #[trigger] have@[l] < 5 by {
                lemma_letter_count_bounded(gs, (l + 65) as u8, i as int);
            }
        }
        let index = (g[i] - 65) as usize;
        let count = have[index];
        have[index] = count + 1;
        i += 1;
    }

    let mut k: usize = 0;
    while k < history.len()
        invariant
            g@ == gs,
            is_word(gs),
            k <= history@.len(),
            forall|l: int| 0 <= l < 26 ==> #[trigger] have@[l] == letter_count(gs, (l + 65) as u8, WORD_LEN as int),
            forall|j: int|
                0 <= j < k ==> respects_clue(gs, #[trigger] history@[j].guess@, marks_of(history@[j].pattern@)),
        decreases history@.len() - k,
    {
        let entry = history[k];
        let prior = entry.guess.letters();
        let marks = entry.pattern.marks();
        let ghost ps = entry.guess@;
        let ghost ms = marks_of(entry.pattern@);
        assert(ps == history@[k as int].guess@);
        let mut need: [u8; 26] = [0u8; 26];
        let mut i: usize = 0;
        while i < WORD_LEN
            invariant
                g@ == gs,
                prior@ == ps,
                marks@ == ms,
                is_word(gs),
                is_word(ps),
                i <= WORD_LEN,
                forall|l: int|
                    0 <= l < 26 ==> #[trigger] need@[l] == revealed_count(ps, ms, (l + 65) as u8, i as int),
                forall|j: int| 0 <= j < i && ms[j] == 2 ==> #[trigger] gs[j] == ps[j],
            decreases WORD_LEN - i,
        {
            proof {
                assert forall|l: int| 0 <= l < 26 implies #[trigger] need@[l] < 5 by {
                    lemma_revealed_count_bounded(ps, ms, (l + 65) as u8, i as int);
                }
            }
            if marks[i] != 0 {
                if marks[i] == 2 && g[i] != prior[i] {
                    proof {
                        assert(history@[k as int].guess@ == ps);
                        assert(!respects_clue(gs, ps, ms));
                    }
                    return false;
                }
                let index = (prior[i] - 65) as usize;
                let count = need[index];
                need[index] = count + 1;
            }
            i += 1;
        }
        let mut l: usize = 0;
        while l < 26
            invariant
                l <= 26,
                forall|x: int| 0 <= x < 26 ==> #[trigger] have@[x] == letter_count(gs, (x + 65) as u8, WORD_LEN as int),
                forall|x: int| 0 <= x < 26 ==> #[trigger] need@[x] == revealed_count(ps, ms, (x + 65) as u8, WORD_LEN as int),
                forall|x: int| 0 <= x < l ==> #[trigger] need@[x] <= have@[x],
            decreases 26 - l,
        {
            if have[l] < need[l] {
                proof {
                    let c = (l + 65) as u8;
                    assert(revealed_count(ps, ms, c, WORD_LEN as int) > letter_count(gs, c, WORD_LEN as int));
                    assert(history@[k as int].guess@ == ps);
                    assert(!respects_clue(gs, ps, ms));
                }
                return false;
            }
            l += 1;
        }
        proof {
            assert forall|c: u8|
                #[trigger] revealed_count(ps, ms, c, WORD_LEN as int) <= letter_count(gs, c, WORD_LEN as int) by {
                if 65 <= c <= 90 {
                    assert(need@[c - 65] <= have@[c - 65]);
                } else {
                    lemma_revealed_count_non_letter(ps, ms, c, WORD_LEN as int);
                }
            }
        }
        k += 1;
    }
    true
}


/// Whether the hidden word `c` would have produced every pattern in `history`.
pub open spec fn consistent_with(history: Seq<GuessFeedback>, c: Seq<u8>) -> bool {
    forall|k: int|
        0 <= k < history.len() ==> feedback_code(#[trigger] history[k].guess@, c) == history[k].pattern@
}

/// The keys of the words in `ws`.
pub open spec fn word_keys(ws: Seq<Word>) -> Set<u64> {
    Set::new(|k: u64| exists|i: int| 0 <= i < ws.len() && word_key(#[trigger] ws[i]@) == k)
}

/// Whether every element of `ws` spells a word.
pub open spec fn all_words(ws: Seq<Word>) -> bool {
    forall|i: int| 0 <= i < ws.len() ==> is_word(#[trigger] ws[i]@)
}

/// What the suggestions for a turn are drawn from.
pub enum ScoringPlan {
    /// Nothing is to be suggested.
    Nothing,
    /// These guesses are scored and offered in this order.
    InOrder(Vec<Word>),
    /// These guesses are scored and offered best first.
    Ranked(Vec<Word>),
}

/// A copy of `ws`.
fn copy_words(ws: &[Word]) -> (v: Vec<Word>)
    ensures
        v@ == ws@,
{
    let mut v: Vec<Word> = Vec::new();
    let mut i: usize = 0;
    while i < ws.len()
        invariant
            i <= ws@.len(),
            v@ == ws@.take(i as int),
        decreases ws@.len() - i,
    {
        v.push(ws[i]);
        proof {
            assert(ws@.take(i + 1) =~= ws@.take(i as int).push(ws@[i as int]));
        }
        i += 1;
    }
    proof {
        assert(ws@.take(ws@.len() as int) =~= ws@);
    }
    v
}

/// The word lists a game is played with: the possible answers and the allowed guesses.
pub struct Solver {
    answers: Vec<Word>,
    guesses: Vec<Word>,
    answer_set: HashSet<u64>,
    guess_set: HashSet<u64>,
}

fn word_key_set(words: &Vec<Word>) -> (set: HashSet<u64>)
    ensures
        set@ == word_keys(words@),
        all_words(words@),
{
    broadcast use vstd::std_specs::hash::group_hash_axioms;

    let mut set: HashSet<u64> = HashSet::new();
    let mut i: usize = 0;
    while i < words.len()
        invariant
            i <= words@.len(),
            set@ == word_keys(words@.take(i as int)),
            all_words(words@.take(i as int)),
        decreases words@.len() - i,
    {
        let w = words[i];
        set.insert(w.key());
        proof {
            let t = words@.take(i + 1);
            assert(t.drop_last() =~= words@.take(i as int));
            assert(t[i as int] == w);
            assert forall|k: u64| #[trigger] set@.contains(k) == word_keys(t).contains(k) by {
                if set@.contains(k) && k != word_key(w@) {
                    let j = choose|j: int| 0 <= j < i && word_key(#[trigger] words@.take(i as int)[j]@) == k;
                    assert(t[j] == words@.take(i as int)[j]);
                }
                if word_keys(t).contains(k) {
                    let j = choose|j: int| 0 <= j < t.len() && word_key(#[trigger] t[j]@) == k;
                    if j < i {
                        assert(t[j] == words@.take(i as int)[j]);
                    }
                }
            }
            assert(set@ =~= word_keys(t));
        }
        i += 1;
    }
    proof {
        assert(words@.take(words@.len() as int) =~= words@);
    }
    set
}

proof fn lemma_word_keys_contains(ws: Seq<Word>, w: Word)
    requires
        all_words(ws),
        is_word(w@),
    ensures
        word_keys(ws).contains(word_key(w@) as u64) == ws.contains(w),
{
    if ws.contains(w) {
        let i = choose|i: int| 0 <= i < ws.len() && ws[i] == w;
        assert(word_key(ws[i]@) == word_key(w@));
    }
    if word_keys(ws).contains(word_key(w@) as u64) {
        let i = choose|i: int| 0 <= i < ws.len() && word_key(#[trigger] ws[i]@) == word_key(w@) as u64;
        lemma_word_key_injective(ws[i]@, w@);
        lemma_word_view_injective(ws[i], w);
    }
}

impl Solver {
    #[verifier::type_invariant]
    spec fn sets_match_lists(self) -> bool {
        &&& self.answer_set@ == word_keys(self.answers@)
        &&& self.guess_set@ == word_keys(self.guesses@)
        &&& all_words(self.answers@)
        &&& all_words(self.guesses@)
    }

    /// The possible answers, in the order they were given.
    pub closed spec fn answers(self) -> Seq<Word> {
        self.answers@
    }

    /// The allowed guesses, in the order they were given.
    pub closed spec fn guesses(self) -> Seq<Word> {
        self.guesses@
    }

    /// A solver for games whose answer is one of `answers` and whose guesses are
    /// taken from `guesses`.
    pub fn new(answers: Vec<Word>, guesses: Vec<Word>) -> (s: Solver)
        ensures
            s.answers() == answers@,
            s.guesses() == guesses@,
    {
        let answer_set = word_key_set(&answers);
        let guess_set = word_key_set(&guesses);
        Solver { answers, guesses, answer_set, guess_set }
    }

    /// Whether `word` may be guessed.
    pub fn is_valid_guess(&self, word: Word) -> (b: bool)
        ensures
            b == self.guesses().contains(word),
    {
        broadcast use vstd::std_specs::hash::group_hash_axioms;

        proof { use_type_invariant(self); }
        let k = word.key();
        proof { lemma_word_keys_contains(self.guesses@, word); }
        self.guess_set.contains(&k)
    }

    /// Whether `word` may be the answer.
    pub fn is_possible_answer(&self, word: Word) -> (b: bool)
        ensures
            b == self.answers().contains(word),
    {
        broadcast use vstd::std_specs::hash::group_hash_axioms;

        proof { use_type_invariant(self); }
        let k = word.key();
        proof { lemma_word_keys_contains(self.answers@, word); }
        self.answer_set.contains(&k)
    }

    /// The possible answers that agree with every clue in `history`, in the
    /// order of the answer list.
    pub fn candidates(&self, history: &[GuessFeedback]) -> (c: Vec<Word>)
        ensures
            c@ == self.answers().filter(|w: Word| consistent_with(history@, w@)),
    {
        let ghost pred = |w: Word| consistent_with(history@, w@);
        let mut result: Vec<Word> = Vec::new();
        let mut i: usize = 0;
        while i < self.answers.len()
            invariant
                pred == (|w: Word| consistent_with(history@, w@)),
                i <= self.answers@.len(),
                result@ == self.answers@.take(i as int).filter(pred),
            decreases self.answers@.len() - i,
        {
            let candidate = self.answers[i];
            let mut matches = true;
            let mut k: usize = 0;
            while k < history.len()
                invariant
                    k <= history@.len(),
                    matches == forall|j: int|
                        0 <= j < k ==> feedback_code(#[trigger] history@[j].guess@, candidate@) == history@[j].pattern@,
                decreases history@.len() - k,
            {
                let entry = history[k];
                let shown = feedback(entry.guess, candidate);
                proof {
                    if shown@ == entry.pattern@ {
                        lemma_pattern_view_injective(shown, entry.pattern);
                    }
                }
                if shown != entry.pattern {
                    matches = false;
                }
                k += 1;
            }
            proof {
                reveal_with_fuel(Seq::<_>::filter, 1);
                assert(self.answers@.take(i + 1).drop_last() =~= self.answers@.take(i as int));
                assert(matches == consistent_with(history@, candidate@));
                assert(pred(candidate) == matches);
            }
            if matches {
                result.push(candidate);
            }
            i += 1;
        }
        proof {
            assert(self.answers@.take(self.answers@.len() as int) =~= self.answers@);
        }
        result
    }

    /// The guesses a player may choose from after `history`: in hard mode those
    /// that respect every clue, otherwise all of them.
    pub open spec fn guess_pool(self, history: Seq<GuessFeedback>, hard_mode: bool) -> Seq<Word> {
        if hard_mode {
            self.guesses().filter(|g: Word| hard_mode_allows(g@, history))
        } else {
            self.guesses()
        }
    }

    fn hard_mode_guesses(&self, history: &[GuessFeedback]) -> (pool: Vec<Word>)
        ensures
            pool@ == self.guesses().filter(|g: Word| hard_mode_allows(g@, history@)),
    {
        let ghost pred = |g: Word| hard_mode_allows(g@, history@);
        let mut pool: Vec<Word> = Vec::new();
        let mut i: usize = 0;
        while i < self.guesses.len()
            invariant
                pred == (|g: Word| hard_mode_allows(g@, history@)),
                i <= self.guesses@.len(),
                pool@ == self.guesses@.take(i as int).filter(pred),
            decreases self.guesses@.len() - i,
        {
            let guess = self.guesses[i];
            let allowed = obeys_hard_mode(guess, history);
            proof {
                reveal_with_fuel(Seq::<_>::filter, 1);
                assert(self.guesses@.take(i + 1).drop_last() =~= self.guesses@.take(i as int));
            }
            if allowed {
                pool.push(guess);
            }
            i += 1;
        }
        proof {
            assert(self.guesses@.take(self.guesses@.len() as int) =~= self.guesses@);
        }
        pool
    }

    /// Which guesses to score for a turn with `candidates` left, at most `top_n`
    /// being wanted: none when nothing is wanted or nothing is left; the first
    /// candidates themselves, in order, when at most two are left; otherwise the
    /// guess pool, reduced by `reduce_guess_pool`, to be ranked by score.
    pub fn scoring_plan(
        &self,
        history: &[GuessFeedback],
        candidates: &[Word],
        hard_mode: bool,
        top_n: usize,
    ) -> (plan: ScoringPlan)
        requires
            top_n == 0 || candidates@.len() <= MAX_CANDIDATES,
        ensures
            candidates@.len() == 0 || top_n == 0 ==> plan is Nothing,
            candidates@.len() != 0 && top_n != 0 && candidates@.len() <= 2 ==> (plan matches ScoringPlan::InOrder(ws)
                && ws@ == candidates@.take(if top_n < candidates@.len() { top_n as int } else { candidates@.len() as int })),
            candidates@.len() > 2 && top_n != 0 ==> (plan matches ScoringPlan::Ranked(ws) && is_reduced_pool(
                ws@,
                self.guess_pool(history@, hard_mode),
                candidates@,
            )),
            plan matches ScoringPlan::Ranked(ws) ==> forall|w: Word| #[trigger] ws@.contains(w) ==> self.guesses().contains(w)
                && (hard_mode ==> hard_mode_allows(w@, history@)),
    {
        if candidates.len() == 0 || top_n == 0 {
            return ScoringPlan::Nothing;
        }
        if candidates.len() <= 2 {
            let all = copy_words(candidates);
            let mut first = all;
            let keep = if top_n < candidates.len() {
                top_n
            } else {
                candidates.len()
            };
            first.truncate(keep);
            return ScoringPlan::InOrder(first);
        }
        let pool = if hard_mode {
            self.hard_mode_guesses(history)
        } else {
            copy_words(self.guesses.as_slice())
        };
        let ranked = reduce_guess_pool(pool, candidates);
        proof {
            assert forall|w: Word| #[trigger] ranked@.contains(w) implies self.guesses().contains(w) && (hard_mode
                ==> hard_mode_allows(w@, history@)) by {
                lemma_planned_guesses_allowed(*self, history@, candidates@, hard_mode, ranked@, w);
            }
        }
        ScoringPlan::Ranked(ranked)
    }
}


proof fn lemma_revealed_is_coloured(g: Seq<u8>, a: Seq<u8>, l: u8, n: int)
    requires
        0 <= n <= WORD_LEN,
    ensures
        revealed_count(g, feedback_marks(g, a), l, n) == coloured_count(g, a, l, n),
    decreases n,
{
    if n > 0 {
        lemma_revealed_is_coloured(g, a, l, n - 1);
    }
}

/// The hidden word always obeys hard mode: whatever clues the true feedback gave,
/// the answer keeps every green in place and holds every revealed letter at least
/// as often as it was revealed.
pub proof fn lemma_answer_obeys_hard_mode(answer: Seq<u8>, history: Seq<GuessFeedback>)
    requires
        is_word(answer),
        forall|k: int| 0 <= k < history.len() ==> is_word(#[trigger] history[k].guess@),
        consistent_with(history, answer),
    ensures
        hard_mode_allows(answer, history),
{
    assert forall|k: int| 0 <= k < history.len() implies respects_clue(
        answer,
        #[trigger] history[k].guess@,
        marks_of(history[k].pattern@),
    ) by {
        let g = history[k].guess@;
        lemma_feedback_marks_decode(g, answer);
        let m = marks_of(history[k].pattern@);
        assert(m == feedback_marks(g, answer));
        assert forall|i: int| 0 <= i < WORD_LEN && m[i] == 2 implies #[trigger] answer[i] == g[i] by {
            assert(m[i] == feedback_mark(g, answer, i));
        }
        assert forall|l: u8|
            #[trigger] revealed_count(g, m, l, WORD_LEN as int) <= letter_count(answer, l, WORD_LEN as int) by {
            lemma_revealed_is_coloured(g, answer, l, WORD_LEN as int);
            lemma_coloured_letters_bounded(g, answer, l);
        }
    }
}

/// The candidates after `history` are exactly the possible answers that agree
/// with every clue.
pub proof fn lemma_candidate_iff(answers: Seq<Word>, history: Seq<GuessFeedback>, w: Word)
    ensures
        answers.filter(|c: Word| consistent_with(history, c@)).contains(w) <==> answers.contains(w)
            && consistent_with(history, w@),
{
    let pred = |c: Word| consistent_with(history, c@);
    let f = answers.filter(pred);
    if f.contains(w) {
        answers.lemma_filter_contains_rev(pred, w);
        let i = choose|i: int| 0 <= i < f.len() && f[i] == w;
        answers.lemma_filter_pred(pred, i);
    }
    if answers.contains(w) && consistent_with(history, w@) {
        let i = choose|i: int| 0 <= i < answers.len() && answers[i] == w;
        answers.lemma_filter_contains(pred, i);
    }
}

/// The hidden word is never filtered out: if it is a possible answer and every
/// clue in `history` is the feedback it really gives, it stays a candidate.
pub proof fn lemma_answer_stays_candidate(answers: Seq<Word>, history: Seq<GuessFeedback>, answer: Word)
    requires
        answers.contains(answer),
        forall|k: int|
            0 <= k < history.len() ==> (#[trigger] history[k]).pattern@ == feedback_code(history[k].guess@, answer@),
    ensures
        answers.filter(|c: Word| consistent_with(history, c@)).contains(answer),
{
    lemma_candidate_iff(answers, history, answer);
}

/// A further clue only narrows the candidates: every candidate after
/// `history` followed by `entry` was already a candidate after `history`.
pub proof fn lemma_clue_narrows_candidates(
    answers: Seq<Word>,
    history: Seq<GuessFeedback>,
    entry: GuessFeedback,
    w: Word,
)
    requires
        answers.filter(|c: Word| consistent_with(history.push(entry), c@)).contains(w),
    ensures
        answers.filter(|c: Word| consistent_with(history, c@)).contains(w),
{
    lemma_candidate_iff(answers, history.push(entry), w);
    assert forall|k: int| 0 <= k < history.len() implies feedback_code(#[trigger] history[k].guess@, w@) == history[k].pattern@ by {
        assert(history.push(entry)[k] == history[k]);
    }
    lemma_candidate_iff(answers, history, w);
}


/// Every guess that `scoring_plan` ranks is an allowed guess, and in hard mode
/// one that respects every clue.
pub proof fn lemma_planned_guesses_allowed(
    solver: Solver,
    history: Seq<GuessFeedback>,
    candidates: Seq<Word>,
    hard_mode: bool,
    planned: Seq<Word>,
    w: Word,
)
    requires
        is_reduced_pool(planned, solver.guess_pool(history, hard_mode), candidates),
        planned.contains(w),
    ensures
        solver.guesses().contains(w),
        hard_mode ==> hard_mode_allows(w@, history),
{
    let pool = solver.guess_pool(history, hard_mode);
    if candidates.len() > FULL_POOL_LIMIT {
        let ranked = choose|ranked: Seq<Word>|
            is_ranking(ranked, pool, candidates) && planned == ranked.take(
                if pool_cap(candidates.len() as int) < ranked.len() {
                    pool_cap(candidates.len() as int)
                } else {
                    ranked.len() as int
                },
            );
        let i = choose|i: int| 0 <= i < planned.len() && planned[i] == w;
        assert(ranked[i] == w);
        assert(ranked.contains(w));
        vstd::seq_lib::to_multiset_contains(ranked, w);
        vstd::seq_lib::to_multiset_contains(pool, w);
    }
    assert(pool.contains(w));
    if hard_mode {
        let pred = |g: Word| hard_mode_allows(g@, history);
        solver.guesses().lemma_filter_contains_rev(pred, w);
        let j = choose|j: int| 0 <= j < pool.len() && pool[j] == w;
        solver.guesses().lemma_filter_pred(pred, j);
    }
}


proof fn lemma_filter_refines(s: Seq<Word>, p: spec_fn(Word) -> bool, q: spec_fn(Word) -> bool)
    requires
        forall|x: Word| #[trigger] q(x) ==> p(x),
    ensures
        s.filter(q) == s.filter(p).filter(q),
    decreases s.len(),
{
    reveal_with_fuel(Seq::<_>::filter, 1);
    if s.len() > 0 {
        lemma_filter_refines(s.drop_last(), p, q);
        let fp = s.drop_last().filter(p);
        if p(s.last()) {
            assert(fp.push(s.last()).drop_last() =~= fp);
        }
    }
}

/// Further clues keep the candidates in order: the candidates after `history`
/// followed by `more` are the candidates after `history` that also agree with
/// `more`, in the same order, so they form a subsequence of them.
pub proof fn lemma_more_clues_keep_order(answers: Seq<Word>, history: Seq<GuessFeedback>, more: Seq<GuessFeedback>)
    ensures
        answers.filter(|c: Word| consistent_with(history + more, c@)) == answers.filter(
            |c: Word| consistent_with(history, c@),
        ).filter(|c: Word| consistent_with(history + more, c@)),
{
    let p = |c: Word| consistent_with(history, c@);
    let q = |c: Word| consistent_with(history + more, c@);
    assert forall|x: Word| #[trigger] q(x) implies p(x) by {
        assert forall|k: int| 0 <= k < history.len() implies feedback_code(#[trigger] history[k].guess@, x@)
            == history[k].pattern@ by {
            assert((history + more)[k] == history[k]);
        }
    }
    lemma_filter_refines(answers, p, q);
}


/// A tile is green exactly when the guess and the answer have the same letter
/// there, whatever the other tiles hold.
pub proof fn lemma_green_iff_same_letter(g: Seq<u8>, a: Seq<u8>)
    requires
        g.len() == WORD_LEN,
        a.len() == WORD_LEN,
    ensures
        forall|i: int|
            0 <= i < WORD_LEN ==> (#[trigger] marks_of(feedback_code(g, a))[i] == 2) == (g[i] == a[i]),
{
    lemma_feedback_marks_decode(g, a);
    assert forall|i: int| 0 <= i < WORD_LEN implies (#[trigger] marks_of(feedback_code(g, a))[i] == 2) == (g[i]
        == a[i]) by {
        assert(marks_of(feedback_code(g, a))[i] == feedback_mark(g, a, i));
    }
}

/// For every letter, the tiles of the guess showing it that are coloured
/// (green or yellow) number the fewer of its copies in the guess and in the answer.
pub proof fn lemma_revealed_letters_are_min(g: Seq<u8>, a: Seq<u8>)
    requires
        g.len() == WORD_LEN,
        a.len() == WORD_LEN,
    ensures
        forall|l: u8|
            #[trigger] revealed_count(g, marks_of(feedback_code(g, a)), l, WORD_LEN as int) == if letter_count(
                g,
                l,
                WORD_LEN as int,
            ) < letter_count(a, l, WORD_LEN as int) {
                letter_count(g, l, WORD_LEN as int)
            } else {
                letter_count(a, l, WORD_LEN as int)
            },
{
    lemma_feedback_marks_decode(g, a);
    assert forall|l: u8| #[trigger] revealed_count(g, marks_of(feedback_code(g, a)), l, WORD_LEN as int) == if letter_count(
        g,
        l,
        WORD_LEN as int,
    ) < letter_count(a, l, WORD_LEN as int) {
        letter_count(g, l, WORD_LEN as int)
    } else {
        letter_count(a, l, WORD_LEN as int)
    } by {
        lemma_revealed_is_coloured(g, a, l, WORD_LEN as int);
        lemma_coloured_is_min(g, a, l);
    }
}

proof fn lemma_unmatched_guess_count_grows(g: Seq<u8>, a: Seq<u8>, l: u8, i: int, j: int)
    requires
        0 <= i <= j,
    ensures
        unmatched_guess_count(g, a, l, i) <= unmatched_guess_count(g, a, l, j),
    decreases j - i,
{
    if i < j {
        lemma_unmatched_guess_count_grows(g, a, l, i, j - 1);
    }
}

/// Among the tiles of the guess that show the same letter and are not green,
/// the yellow ones come first: a later such tile is yellow only if every
/// earlier one is.
pub proof fn lemma_yellow_leftmost(g: Seq<u8>, a: Seq<u8>, i: int, j: int)
    requires
        g.len() == WORD_LEN,
        a.len() == WORD_LEN,
        0 <= i < j < WORD_LEN,
        g[i] == g[j],
        g[i] != a[i],
        g[j] != a[j],
        marks_of(feedback_code(g, a))[j] == 1,
    ensures
        marks_of(feedback_code(g, a))[i] == 1,
{
    lemma_feedback_marks_decode(g, a);
    assert(marks_of(feedback_code(g, a))[j] == feedback_mark(g, a, j));
    assert(marks_of(feedback_code(g, a))[i] == feedback_mark(g, a, i));
    lemma_unmatched_guess_count_grows(g, a, g[i], i + 1, j);
}

/// Hard mode holds after a history exactly when it holds after each of its
/// clues alone: every clue constrains the guess.
pub proof fn lemma_hard_mode_every_clue(guess: Seq<u8>, history: Seq<GuessFeedback>)
    ensures
        hard_mode_allows(guess, history) <==> forall|k: int|
            0 <= k < history.len() ==> hard_mode_allows(guess, seq![#[trigger] history[k]]),
{
    if hard_mode_allows(guess, history) {
        assert forall|k: int| 0 <= k < history.len() implies hard_mode_allows(guess, seq![#[trigger] history[k]]) by {
            assert(seq![history[k]][0] == history[k]);
        }
    }
    if forall|k: int| 0 <= k < history.len() ==> hard_mode_allows(guess, seq![#[trigger] history[k]]) {
        assert forall|k: int| 0 <= k < history.len() implies respects_clue(
            guess,
            #[trigger] history[k].guess@,
            marks_of(history[k].pattern@),
        ) by {
            assert(hard_mode_allows(guess, seq![history[k]]));
            assert(seq![history[k]][0] == history[k]);
        }
    }
}

/// A guess allowed after a history and one more clue keeps that clue's greens
/// in place and uses each letter it revealed at least as often, and it is still
/// allowed after the history alone.
pub proof fn lemma_hard_mode_last_clue(guess: Seq<u8>, history: Seq<GuessFeedback>, entry: GuessFeedback)
    requires
        hard_mode_allows(guess, history.push(entry)),
    ensures
        hard_mode_allows(guess, history),
        forall|i: int|
            0 <= i < WORD_LEN && #[trigger] marks_of(entry.pattern@)[i] == 2 ==> guess[i] == entry.guess@[i],
        forall|l: u8|
            #[trigger] revealed_count(entry.guess@, marks_of(entry.pattern@), l, WORD_LEN as int) <= letter_count(
                guess,
                l,
                WORD_LEN as int,
            ),
{
    let h = history.push(entry);
    assert(h[history.len() as int] == entry);
    assert(respects_clue(guess, h[history.len() as int].guess@, marks_of(h[history.len() as int].pattern@)));
    assert forall|k: int| 0 <= k < history.len() implies respects_clue(
        guess,
        #[trigger] history[k].guess@,
        marks_of(history[k].pattern@),
    ) by {
        assert(h[k] == history[k]);
    }
}


/// The facts that together fix every tile of `feedback_code(g, a)`: greens
/// exactly where the letters agree, each letter coloured the fewer of its
/// counts in guess and answer, and yellows taken left to right.
pub proof fn lemma_feedback_characterized(g: Seq<u8>, a: Seq<u8>)
    requires
        g.len() == WORD_LEN,
        a.len() == WORD_LEN,
    ensures
        forall|i: int|
            0 <= i < WORD_LEN ==> (#[trigger] marks_of(feedback_code(g, a))[i] == 2) == (g[i] == a[i]),
        forall|l: u8|
            #[trigger] revealed_count(g, marks_of(feedback_code(g, a)), l, WORD_LEN as int) == if letter_count(
                g,
                l,
                WORD_LEN as int,
            ) < letter_count(a, l, WORD_LEN as int) {
                letter_count(g, l, WORD_LEN as int)
            } else {
                letter_count(a, l, WORD_LEN as int)
            },
        forall|i: int, j: int|
            0 <= i < j < WORD_LEN && g[i] == g[j] && g[i] != a[i] && g[j] != a[j]
                && #[trigger] marks_of(feedback_code(g, a))[j] == 1 ==> #[trigger] marks_of(feedback_code(g, a))[i] == 1,
{
    lemma_green_iff_same_letter(g, a);
    lemma_revealed_letters_are_min(g, a);
    assert forall|i: int, j: int|
        0 <= i < j < WORD_LEN && g[i] == g[j] && g[i] != a[i] && g[j] != a[j]
            && #[trigger] marks_of(feedback_code(g, a))[j] == 1 implies #[trigger] marks_of(feedback_code(g, a))[i] == 1 by {
        lemma_yellow_leftmost(g, a, i, j);
    }
}

}
