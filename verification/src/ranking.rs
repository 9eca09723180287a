use vstd::prelude::*;

use crate::pattern::{NUM_PATTERNS, SOLVED_PATTERN};
use crate::solver::{all_words, feedback, feedback_code, letter_count};
use crate::word::{lemma_word_key_injective, lemma_word_view_injective};
use crate::word::{is_word, word_key, Word, WORD_LEN};

verus! {

broadcast use vstd::seq_lib::group_to_multiset_ensures;

/// Largest number of candidates that the frequency and bucket counters can hold.
pub const MAX_CANDIDATES: usize = 65535;

/// How many of the first `n` candidates contain letter `l` at least once.
pub open spec fn containing_count(cands: Seq<Word>, l: u8, n: int) -> nat
    decreases n,
{
    if n <= 0 {
        0
    } else {
        containing_count(cands, l, n - 1) + if letter_count(cands[n - 1]@, l, WORD_LEN as int) > 0 {
            1nat
        } else {
            0nat
        }
    }
}

/// How many of the first `n` candidates have letter `l` at position `i`.
pub open spec fn position_count(cands: Seq<Word>, i: int, l: u8, n: int) -> nat
    decreases n,
{
    if n <= 0 {
        0
    } else {
        position_count(cands, i, l, n - 1) + if cands[n - 1]@[i] == l {
            1nat
        } else {
            0nat
        }
    }
}

/// The letter-frequency score of the first `n` positions of guess `g`: each
/// letter, at its first position only, counts the candidates that contain it
/// plus the candidates that have it at that position.
pub open spec fn rough_score_upto(g: Seq<u8>, cands: Seq<Word>, n: int) -> nat
    decreases n,
{
    if n <= 0 {
        0
    } else {
        let i = n - 1;
        rough_score_upto(g, cands, i) + if letter_count(g, g[i], i) == 0 {
            containing_count(cands, g[i], cands.len() as int) + position_count(cands, i, g[i], cands.len() as int)
        } else {
            0nat
        }
    }
}

/// The letter-frequency score of guess `g` against `cands`.
pub open spec fn rough_score(g: Seq<u8>, cands: Seq<Word>) -> nat {
    rough_score_upto(g, cands, WORD_LEN as int)
}

/// Whether guess `a` is ranked strictly before guess `b`: a higher score first,
/// and among equal scores the alphabetically earlier word.
pub open spec fn ranked_before(a: Word, b: Word, cands: Seq<Word>) -> bool {
    let sa = rough_score(a@, cands);
    let sb = rough_score(b@, cands);
    sa > sb || (sa == sb && word_key(a@) < word_key(b@))
}

/// Whether `ws` is in ranking order against `cands`.
pub open spec fn rank_ordered(ws: Seq<Word>, cands: Seq<Word>) -> bool {
    forall|i: int, j: int| 0 <= i < j < ws.len() ==> !ranked_before(#[trigger] ws[j], #[trigger] ws[i], cands)
}

/// Whether `ranked` holds the words of `pool`, each as often, in ranking order.
pub open spec fn is_ranking(ranked: Seq<Word>, pool: Seq<Word>, cands: Seq<Word>) -> bool {
    &&& ranked.to_multiset() == pool.to_multiset()
    &&& rank_ordered(ranked, cands)
}

proof fn lemma_containing_count_bounded(cands: Seq<Word>, l: u8, n: int)
    requires
        0 <= n,
    ensures
        containing_count(cands, l, n) <= n,
    decreases n,
{
    if n > 0 {
        lemma_containing_count_bounded(cands, l, n - 1);
    }
}

proof fn lemma_position_count_bounded(cands: Seq<Word>, i: int, l: u8, n: int)
    requires
        0 <= n,
    ensures
        position_count(cands, i, l, n) <= n,
    decreases n,
{
    if n > 0 {
        lemma_position_count_bounded(cands, i, l, n - 1);
    }
}

proof fn lemma_rough_score_bounded(g: Seq<u8>, cands: Seq<Word>, n: int)
    requires
        0 <= n,
    ensures
        rough_score_upto(g, cands, n) <= 2 * n * cands.len(),
    decreases n,
{
    if n > 0 {
        lemma_rough_score_bounded(g, cands, n - 1);
        lemma_containing_count_bounded(cands, g[n - 1], cands.len() as int);
        lemma_position_count_bounded(cands, n - 1, g[n - 1], cands.len() as int);
        assert(2 * n * cands.len() == 2 * (n - 1) * cands.len() + 2 * cands.len()) by (nonlinear_arith);
    }
}

proof fn lemma_letter_count_positive_other(w: Seq<u8>, l: u8, n: int)
    requires
        0 <= n,
        letter_count(w, l, n) > 0,
    ensures
        exists|j: int| 0 <= j < n && w[j] == l,
    decreases n,
{
    if w[n - 1] != l {
        lemma_letter_count_positive_other(w, l, n - 1);
    }
}

/// Letter frequencies over the candidates: `total[l]` counts the candidates that
/// contain letter `l + 65`, `positional[26 * i + l]` those that have it at `i`.
fn letter_frequencies(candidates: &[Word]) -> (r: ([u16; 26], [u16; 130]))
    requires
        candidates@.len() <= MAX_CANDIDATES,
    ensures
        forall|l: int| 0 <= l < 26 ==> #[trigger] r.0@[l] == containing_count(candidates@, (l + 65) as u8, candidates@.len() as int),
        forall|i: int, l: int| 0 <= i < WORD_LEN && 0 <= l < 26 ==> #[trigger] r.1@[26 * i + l] == position_count(candidates@, i, (l + 65) as u8, candidates@.len() as int),
{
    let mut total: [u16; 26] = [0u16; 26];
    let mut positional: [u16; 130] = [0u16; 130];
    let mut n: usize = 0;
    while n < candidates.len()
        invariant
            candidates@.len() <= MAX_CANDIDATES,
            n <= candidates@.len(),
            forall|l: int| 0 <= l < 26 ==> #[trigger] total@[l] == containing_count(candidates@, (l + 65) as u8, n as int),
            forall|i: int, l: int| 0 <= i < WORD_LEN && 0 <= l < 26 ==> #[trigger] positional@[26 * i + l] == position_count(candidates@, i, (l + 65) as u8, n as int),
        decreases candidates@.len() - n,
    {
        let c = candidates[n];
        let letters = c.letters();
        let ghost cs = c@;
        let mut seen: [bool; 26] = [false; 26];
        let mut i: usize = 0;
        while i < WORD_LEN
            invariant
                candidates@.len() <= MAX_CANDIDATES,
                n < candidates@.len(),
                candidates@[n as int] == c,
                letters@ == cs,
                cs == c@,
                is_word(cs),
                i <= WORD_LEN,
                forall|l: int| 0 <= l < 26 ==> #[trigger] seen@[l] == (letter_count(cs, (l + 65) as u8, i as int) > 0),
                forall|l: int| 0 <= l < 26 ==> #[trigger] total@[l] == containing_count(candidates@, (l + 65) as u8, n as int) + if seen@[l] { 1nat } else { 0nat },
                forall|p: int, l: int| 0 <= p < WORD_LEN && 0 <= l < 26 ==> #[trigger] positional@[26 * p + l] == position_count(candidates@, p, (l + 65) as u8, n as int) + if p < i && cs[p] == (l + 65) as u8 { 1nat } else { 0nat },
            decreases WORD_LEN - i,
        {
            let idx = (letters[i] - 65) as usize;
            let slot = 26 * i + idx;
            proof {
                lemma_containing_count_bounded(candidates@, (idx + 65) as u8, n as int);
                lemma_position_count_bounded(candidates@, i as int, (idx + 65) as u8, n as int);
                assert(positional@[26 * i + idx] == position_count(candidates@, i as int, (idx + 65) as u8, n as int));
            }
            positional[slot] = positional[slot] + 1;
            if !seen[idx] {
                total[idx] = total[idx] + 1;
                seen[idx] = true;
            }
            i += 1;
        }
        n += 1;
    }
    (total, positional)
}


fn rough_score_of(
    guess: Word,
    total: &[u16; 26],
    positional: &[u16; 130],
    Ghost(cands): Ghost<Seq<Word>>,
) -> (score: u32)
    requires
        cands.len() <= MAX_CANDIDATES,
        forall|l: int| 0 <= l < 26 ==> #[trigger] total@[l] == containing_count(cands, (l + 65) as u8, cands.len() as int),
        forall|i: int, l: int| 0 <= i < WORD_LEN && 0 <= l < 26 ==> #[trigger] positional@[26 * i + l] == position_count(cands, i, (l + 65) as u8, cands.len() as int),
    ensures
        score == rough_score(guess@, cands),
{
    let g = guess.letters();
    let ghost gs = guess@;
    let mut seen: [bool; 26] = [false; 26];
    let mut score: u32 = 0;
    let mut i: usize = 0;
    while i < WORD_LEN
        invariant
            cands.len() <= MAX_CANDIDATES,
            forall|l: int| 0 <= l < 26 ==> #[trigger] total@[l] == containing_count(cands, (l + 65) as u8, cands.len() as int),
            forall|p: int, l: int| 0 <= p < WORD_LEN && 0 <= l < 26 ==> #[trigger] positional@[26 * p + l] == position_count(cands, p, (l + 65) as u8, cands.len() as int),
            g@ == gs,
            is_word(gs),
            i <= WORD_LEN,
            forall|l: int| 0 <= l < 26 ==> #[trigger] seen@[l] == (letter_count(gs, (l + 65) as u8, i as int) > 0),
            score == rough_score_upto(gs, cands, i as int),
        decreases WORD_LEN - i,
    {
        let idx = (g[i] - 65) as usize;
        proof {
            lemma_rough_score_bounded(gs, cands, i as int);
            lemma_containing_count_bounded(cands, gs[i as int], cands.len() as int);
            lemma_position_count_bounded(cands, i as int, gs[i as int], cands.len() as int);
            assert(positional@[26 * i + idx] == position_count(cands, i as int, (idx + 65) as u8, cands.len() as int));
            assert(2 * i * cands.len() <= 2 * 4 * 65535) by (nonlinear_arith)
                requires
                    i <= 4,
                    cands.len() <= 65535,
            ;
        }
        if !seen[idx] {
            seen[idx] = true;
            score = score + total[idx] as u32 + positional[26 * i + idx] as u32;
        }
        i += 1;
    }
    score
}

/// Orders `guesses` by letter-frequency score against `candidates`, highest
/// first, alphabetically among equal scores.
pub fn rough_rank_guesses(guesses: &[Word], candidates: &[Word]) -> (ranked: Vec<Word>)
    requires
        candidates@.len() <= MAX_CANDIDATES,
    ensures
        is_ranking(ranked@, guesses@, candidates@),
        forall|i: int, j: int|
            0 <= i < j < ranked@.len() ==> rough_score(#[trigger] ranked@[i]@, candidates@) >= rough_score(
                #[trigger] ranked@[j]@,
                candidates@,
            ),
        forall|i: int, j: int|
            0 <= i < j < ranked@.len() && rough_score(#[trigger] ranked@[i]@, candidates@) == rough_score(
                #[trigger] ranked@[j]@,
                candidates@,
            ) ==> word_key(ranked@[i]@) <= word_key(ranked@[j]@),
{
    let ghost cands = candidates@;
    let (total, positional) = letter_frequencies(candidates);
    let mut ranked: Vec<Word> = Vec::new();
    let mut scores: Vec<u32> = Vec::new();
    let mut n: usize = 0;
    proof {
        assert(guesses@.take(0) =~= ranked@);
    }
    while n < guesses.len()
        invariant
            cands == candidates@,
            cands.len() <= MAX_CANDIDATES,
            forall|l: int| 0 <= l < 26 ==> #[trigger] total@[l] == containing_count(cands, (l + 65) as u8, cands.len() as int),
            forall|i: int, l: int| 0 <= i < WORD_LEN && 0 <= l < 26 ==> #[trigger] positional@[26 * i + l] == position_count(cands, i, (l + 65) as u8, cands.len() as int),
            n <= guesses@.len(),
            ranked@.len() == scores@.len(),
            forall|j: int| 0 <= j < ranked@.len() ==> #[trigger] scores@[j] == rough_score(ranked@[j]@, cands),
            is_ranking(ranked@, guesses@.take(n as int), cands),
        decreases guesses@.len() - n,
    {
        let w = guesses[n];
        let s = rough_score_of(w, &total, &positional, Ghost(cands));
        let k = w.key();
        let mut p: usize = 0;
        while p < ranked.len() && !(s > scores[p] || (s == scores[p] && k < ranked[p].key()))
            invariant
                p <= ranked@.len(),
                ranked@.len() == scores@.len(),
                s == rough_score(w@, cands),
                k == word_key(w@),
                forall|j: int| 0 <= j < ranked@.len() ==> #[trigger] scores@[j] == rough_score(ranked@[j]@, cands),
                forall|j: int| 0 <= j < p ==> !ranked_before(w, #[trigger] ranked@[j], cands),
            decreases ranked@.len() - p,
        {
            p += 1;
        }
        let ghost old_ranked = ranked@;
        proof {
            assert(p < old_ranked.len() ==> ranked_before(w, old_ranked[p as int], cands));
        }
        ranked.insert(p, w);
        scores.insert(p, s);
        proof {
            let r = ranked@;
            assert(r =~= old_ranked.insert(p as int, w));
            assert forall|i: int, j: int| 0 <= i < j < r.len() implies !ranked_before(#[trigger] r[j], #[trigger] r[i], cands) by {
                if j < p {
                    assert(r[i] == old_ranked[i] && r[j] == old_ranked[j]);
                } else if j == p {
                    assert(r[i] == old_ranked[i]);
                } else if i < p {
                    assert(r[i] == old_ranked[i] && r[j] == old_ranked[j - 1]);
                } else if i == p {
                    assert(r[j] == old_ranked[j - 1]);
                    if j - 1 > p {
                        assert(!ranked_before(old_ranked[j - 1], old_ranked[p as int], cands));
                    }
                } else {
                    assert(r[i] == old_ranked[i - 1] && r[j] == old_ranked[j - 1]);
                }
            }
            assert(guesses@.take(n + 1) =~= guesses@.take(n as int).push(w));
            vstd::seq_lib::to_multiset_insert(old_ranked, p as int, w);
            assert forall|j: int| 0 <= j < r.len() implies #[trigger] scores@[j] == rough_score(r[j]@, cands) by {
                if j < p {
                    assert(r[j] == old_ranked[j]);
                } else if j > p {
                    assert(r[j] == old_ranked[j - 1]);
                }
            }
        }
        n += 1;
    }
    proof {
        assert(guesses@.take(guesses@.len() as int) =~= guesses@);
        lemma_ranking_descending(ranked@, guesses@, cands);
    }
    ranked
}


/// Whether `reduced` is what `reduce_guess_pool` makes of `pool` for `cands`.
pub open spec fn is_reduced_pool(reduced: Seq<Word>, pool: Seq<Word>, cands: Seq<Word>) -> bool {
    &&& cands.len() <= FULL_POOL_LIMIT ==> reduced == pool
    &&& cands.len() > FULL_POOL_LIMIT ==> exists|ranked: Seq<Word>|
        is_ranking(ranked, pool, cands) && reduced == ranked.take(
            if pool_cap(cands.len() as int) < ranked.len() {
                pool_cap(cands.len() as int)
            } else {
                ranked.len() as int
            },
        )
}

proof fn lemma_ranking_members(ranked: Seq<Word>, pool: Seq<Word>, w: Word)
    requires
        ranked.to_multiset() == pool.to_multiset(),
    ensures
        ranked.contains(w) <==> pool.contains(w),
{
    vstd::seq_lib::to_multiset_contains(ranked, w);
    vstd::seq_lib::to_multiset_contains(pool, w);
}

/// There is only one ranking of a pool of words: two sequences that both hold
/// the words of `pool` in ranking order are the same.
pub proof fn lemma_ranking_unique(r1: Seq<Word>, r2: Seq<Word>, pool: Seq<Word>, cands: Seq<Word>)
    requires
        all_words(pool),
        is_ranking(r1, pool, cands),
        is_ranking(r2, pool, cands),
    ensures
        r1 == r2,
    decreases r1.len(),
{
    vstd::seq_lib::to_multiset_len(r1);
    vstd::seq_lib::to_multiset_len(r2);
    if r1.len() == 0 {
        assert(r2.len() == 0);
        assert(r1 =~= r2);
    } else {
        let x = r1[0];
        let y = r2[0];
        assert(r1.contains(x));
        lemma_ranking_members(r1, pool, x);
        lemma_ranking_members(r2, pool, x);
        assert(r2.contains(y));
        lemma_ranking_members(r2, pool, y);
        lemma_ranking_members(r1, pool, y);
        let i = choose|i: int| 0 <= i < r2.len() && r2[i] == x;
        let j = choose|j: int| 0 <= j < r1.len() && r1[j] == y;
        if i > 0 {
            assert(!ranked_before(r2[i], r2[0], cands));
        }
        if j > 0 {
            assert(!ranked_before(r1[j], r1[0], cands));
        }
        let pi = choose|k: int| 0 <= k < pool.len() && pool[k] == x;
        let pj = choose|k: int| 0 <= k < pool.len() && pool[k] == y;
        assert(is_word(pool[pi]@) && is_word(pool[pj]@));
        if word_key(x@) == word_key(y@) {
            lemma_word_key_injective(x@, y@);
            lemma_word_view_injective(x, y);
        }
        assert(x == y);
        let t1 = r1.drop_first();
        let t2 = r2.drop_first();
        assert(t1 =~= r1.remove(0));
        assert(t2 =~= r2.remove(0));
        vstd::seq_lib::to_multiset_remove(r1, 0);
        vstd::seq_lib::to_multiset_remove(r2, 0);
        assert forall|k: int| 0 <= k < t1.len() implies is_word(#[trigger] t1[k]@) by {
            assert(r1.contains(t1[k])) by {
                assert(r1[k + 1] == t1[k]);
            }
            lemma_ranking_members(r1, pool, t1[k]);
            let q = choose|q: int| 0 <= q < pool.len() && pool[q] == t1[k];
            assert(is_word(pool[q]@));
        }
        assert forall|a: int, b: int| 0 <= a < b < t1.len() implies !ranked_before(#[trigger] t1[b], #[trigger] t1[a], cands) by {
            assert(t1[a] == r1[a + 1] && t1[b] == r1[b + 1]);
        }
        assert forall|a: int, b: int| 0 <= a < b < t2.len() implies !ranked_before(#[trigger] t2[b], #[trigger] t2[a], cands) by {
            assert(t2[a] == r2[a + 1] && t2[b] == r2[b + 1]);
        }
        lemma_ranking_unique(t1, t2, t1, cands);
        assert(r1 =~= r2) by {
            assert forall|k: int| 0 <= k < r1.len() implies r1[k] == r2[k] by {
                if k > 0 {
                    assert(r1[k] == t1[k - 1] && r2[k] == t2[k - 1]);
                }
            }
        }
    }
}

/// A ranking puts higher letter-frequency scores first, and alphabetically
/// earlier words first among equal scores.
pub proof fn lemma_ranking_descending(ranked: Seq<Word>, pool: Seq<Word>, cands: Seq<Word>)
    requires
        is_ranking(ranked, pool, cands),
    ensures
        forall|i: int, j: int|
            0 <= i < j < ranked.len() ==> rough_score(#[trigger] ranked[i]@, cands) >= rough_score(
                #[trigger] ranked[j]@,
                cands,
            ),
        forall|i: int, j: int|
            0 <= i < j < ranked.len() && rough_score(#[trigger] ranked[i]@, cands) == rough_score(
                #[trigger] ranked[j]@,
                cands,
            ) ==> word_key(ranked[i]@) <= word_key(ranked[j]@),
{
    assert forall|i: int, j: int| 0 <= i < j < ranked.len() implies rough_score(#[trigger] ranked[i]@, cands)
        >= rough_score(#[trigger] ranked[j]@, cands) by {
        assert(!ranked_before(ranked[j], ranked[i], cands));
    }
    assert forall|i: int, j: int|
        0 <= i < j < ranked.len() && rough_score(#[trigger] ranked[i]@, cands) == rough_score(
            #[trigger] ranked[j]@,
            cands,
        ) implies word_key(ranked[i]@) <= word_key(ranked[j]@) by {
        assert(!ranked_before(ranked[j], ranked[i], cands));
    }
}

/// Whether `reduced`, drawn from `pool`, holds the best-scoring guesses: it is
/// in descending score order, holds only words of the pool, as many as the cap
/// allows, and every pool word it leaves out scores no higher than any word it
/// keeps.
pub open spec fn keeps_best(reduced: Seq<Word>, pool: Seq<Word>, cands: Seq<Word>) -> bool {
    &&& reduced.len() == if pool_cap(cands.len() as int) < pool.len() {
        pool_cap(cands.len() as int)
    } else {
        pool.len() as int
    }
    &&& forall|i: int, j: int|
        0 <= i < j < reduced.len() ==> rough_score(#[trigger] reduced[i]@, cands) >= rough_score(
            #[trigger] reduced[j]@,
            cands,
        )
    &&& forall|x: Word| #[trigger] reduced.contains(x) ==> pool.contains(x)
    &&& forall|x: Word, i: int|
        0 <= i < reduced.len() && pool.contains(x) && !reduced.contains(x) ==> rough_score(#[trigger] reduced[i]@, cands)
            >= #[trigger] rough_score(x@, cands)
}

/// With more than `FULL_POOL_LIMIT` candidates the reduced pool keeps the
/// best-scoring guesses of the pool.
pub proof fn lemma_reduced_pool_keeps_best(reduced: Seq<Word>, pool: Seq<Word>, cands: Seq<Word>)
    requires
        is_reduced_pool(reduced, pool, cands),
        cands.len() > FULL_POOL_LIMIT,
    ensures
        keeps_best(reduced, pool, cands),
{
    let ranked = choose|ranked: Seq<Word>|
        is_ranking(ranked, pool, cands) && reduced == ranked.take(
            if pool_cap(cands.len() as int) < ranked.len() {
                pool_cap(cands.len() as int)
            } else {
                ranked.len() as int
            },
        );
    let k = if pool_cap(cands.len() as int) < ranked.len() {
        pool_cap(cands.len() as int)
    } else {
        ranked.len() as int
    };
    vstd::seq_lib::to_multiset_len(ranked);
    vstd::seq_lib::to_multiset_len(pool);
    lemma_ranking_descending(ranked, pool, cands);
    assert forall|i: int, j: int| 0 <= i < j < reduced.len() implies rough_score(#[trigger] reduced[i]@, cands)
        >= rough_score(#[trigger] reduced[j]@, cands) by {
        assert(reduced[i] == ranked[i] && reduced[j] == ranked[j]);
    }
    assert forall|x: Word| #[trigger] reduced.contains(x) implies pool.contains(x) by {
        let i = choose|i: int| 0 <= i < reduced.len() && reduced[i] == x;
        assert(ranked[i] == x);
        assert(ranked.contains(x));
        lemma_ranking_members(ranked, pool, x);
    }
    assert forall|x: Word, i: int|
        0 <= i < reduced.len() && pool.contains(x) && !reduced.contains(x) implies rough_score(
            #[trigger] reduced[i]@,
            cands,
        ) >= #[trigger] rough_score(x@, cands) by {
        lemma_ranking_members(ranked, pool, x);
        let m = choose|m: int| 0 <= m < ranked.len() && ranked[m] == x;
        if m < k {
            assert(reduced[m] == x);
        }
        assert(reduced[i] == ranked[i]);
        assert(rough_score(ranked[i]@, cands) >= rough_score(ranked[m]@, cands));
    }
}

/// How many candidates the guess pool may be ranked down to before scoring.
pub open spec fn pool_cap(candidate_count: int) -> int {
    if candidate_count > 1000 {
        3000
    } else {
        6000
    }
}

/// Below or at this many candidates every guess in the pool is scored.
pub const FULL_POOL_LIMIT: usize = 120;

/// The guesses worth scoring exactly: the whole pool when there are few
/// candidates, otherwise the best-ranked guesses up to a cap.
pub fn reduce_guess_pool(pool: Vec<Word>, candidates: &[Word]) -> (reduced: Vec<Word>)
    requires
        candidates@.len() <= MAX_CANDIDATES,
    ensures
        is_reduced_pool(reduced@, pool@, candidates@),
        candidates@.len() > FULL_POOL_LIMIT ==> keeps_best(reduced@, pool@, candidates@),
{
    if candidates.len() <= FULL_POOL_LIMIT {
        return pool;
    }
    let mut ranked = rough_rank_guesses(pool.as_slice(), candidates);
    let ghost full = ranked@;
    let cap: usize = if candidates.len() > 1000 {
        3000
    } else {
        6000
    };
    let keep = if cap < ranked.len() {
        cap
    } else {
        ranked.len()
    };
    ranked.truncate(keep);
    proof {
        assert(ranked@ =~= full.take(keep as int));
        lemma_reduced_pool_keeps_best(ranked@, pool@, candidates@);
    }
    ranked
}


/// How many of the first `n` candidates answer guess `g` with the pattern coded `p`.
pub open spec fn bucket_count(g: Seq<u8>, cands: Seq<Word>, p: int, n: int) -> nat
    decreases n,
{
    if n <= 0 {
        0
    } else {
        bucket_count(g, cands, p, n - 1) + if feedback_code(g, cands[n - 1]@) == p {
            1nat
        } else {
            0nat
        }
    }
}

/// The sum of the first `n` entries of `s`.
pub open spec fn sum_upto(s: Seq<u16>, n: int) -> int
    decreases n,
{
    if n <= 0 {
        0
    } else {
        sum_upto(s, n - 1) + s[n - 1]
    }
}

/// How many of the first `n` entries of `s` are exactly one.
pub open spec fn ones_upto(s: Seq<u16>, n: int) -> nat
    decreases n,
{
    if n <= 0 {
        0
    } else {
        ones_upto(s, n - 1) + if s[n - 1] == 1 {
            1nat
        } else {
            0nat
        }
    }
}

/// How the candidates split up under one guess: the number of candidates behind
/// each pattern, how many patterns single out one candidate, how many candidates
/// the guess solves at once, and whether the guess is a candidate itself.
pub struct GuessPartition {
    pub buckets: Vec<u16>,
    pub singleton_buckets: usize,
    pub solved_now: u16,
    pub is_candidate: bool,
}

proof fn lemma_bucket_count_bounded(g: Seq<u8>, cands: Seq<Word>, p: int, n: int)
    requires
        0 <= n,
    ensures
        bucket_count(g, cands, p, n) <= n,
    decreases n,
{
    if n > 0 {
        lemma_bucket_count_bounded(g, cands, p, n - 1);
    }
}

proof fn lemma_sum_update(s: Seq<u16>, i: int, v: u16, n: int)
    requires
        0 <= i < s.len(),
        0 <= n <= s.len(),
    ensures
        sum_upto(s.update(i, v), n) == sum_upto(s, n) + if i < n {
            v - s[i]
        } else {
            0
        },
    decreases n,
{
    if n > 0 {
        lemma_sum_update(s, i, v, n - 1);
    }
}

/// Splits `candidates` by the pattern each would show for `guess`.
pub fn partition_guess(guess: Word, candidates: &[Word]) -> (part: GuessPartition)
    requires
        candidates@.len() <= MAX_CANDIDATES,
    ensures
        part.buckets@.len() == NUM_PATTERNS,
        forall|p: int| 0 <= p < NUM_PATTERNS ==> #[trigger] part.buckets@[p] == bucket_count(guess@, candidates@, p, candidates@.len() as int),
        sum_upto(part.buckets@, NUM_PATTERNS as int) == candidates@.len(),
        part.singleton_buckets == ones_upto(part.buckets@, NUM_PATTERNS as int),
        part.solved_now == part.buckets@[SOLVED_PATTERN as int],
        part.is_candidate == candidates@.contains(guess),
{
    let mut buckets: Vec<u16> = vec![0u16; NUM_PATTERNS];
    let mut p: usize = 0;
    proof {
        assert forall|q: int| 0 <= q < NUM_PATTERNS implies #[trigger] buckets@[q] == 0 by {
            assert(vstd::pervasive::cloned(0u16, buckets@[q]));
        }
        assert forall|q: int| 0 <= q <= NUM_PATTERNS implies #[trigger] sum_upto(buckets@, q) == 0 by {
            lemma_sum_zero(buckets@, q);
        }
    }
    let mut n: usize = 0;
    let mut is_candidate = false;
    while n < candidates.len()
        invariant
            candidates@.len() <= MAX_CANDIDATES,
            n <= candidates@.len(),
            buckets@.len() == NUM_PATTERNS,
            forall|q: int| 0 <= q < NUM_PATTERNS ==> #[trigger] buckets@[q] == bucket_count(guess@, candidates@, q, n as int),
            sum_upto(buckets@, NUM_PATTERNS as int) == n,
            is_candidate == candidates@.take(n as int).contains(guess),
        decreases candidates@.len() - n,
    {
        let answer = candidates[n];
        let q = feedback(guess, answer).index();
        proof {
            lemma_bucket_count_bounded(guess@, candidates@, q as int, n as int);
            lemma_sum_update(buckets@, q as int, (buckets@[q as int] + 1) as u16, NUM_PATTERNS as int);
        }
        buckets.set(q, buckets[q] + 1);
        if answer.key() == guess.key() {
            is_candidate = true;
        }
        proof {
            assert(candidates@.take(n + 1) =~= candidates@.take(n as int).push(answer));
            let t = candidates@.take(n + 1);
            if word_key(answer@) == word_key(guess@) {
                crate::word::lemma_word_key_injective(answer@, guess@);
                crate::word::lemma_word_view_injective(answer, guess);
                assert(t[n as int] == guess);
            } else {
                if t.contains(guess) {
                    let j = choose|j: int| 0 <= j < t.len() && t[j] == guess;
                    assert(j != n);
                    assert(candidates@.take(n as int)[j] == guess);
                }
                if candidates@.take(n as int).contains(guess) {
                    let j = choose|j: int| 0 <= j < n && candidates@.take(n as int)[j] == guess;
                    assert(t[j] == guess);
                }
            }
        }
        n += 1;
    }
    proof {
        assert(candidates@.take(candidates@.len() as int) =~= candidates@);
    }
    let mut singletons: usize = 0;
    while p < NUM_PATTERNS
        invariant
            p <= NUM_PATTERNS,
            buckets@.len() == NUM_PATTERNS,
            singletons == ones_upto(buckets@, p as int),
            singletons <= p,
        decreases NUM_PATTERNS - p,
    {
        if buckets[p] == 1 {
            singletons += 1;
        }
        p += 1;
    }
    let solved_now = buckets[SOLVED_PATTERN as usize];
    GuessPartition { buckets, singleton_buckets: singletons, solved_now, is_candidate }
}

proof fn lemma_sum_zero(s: Seq<u16>, n: int)
    requires
        0 <= n <= s.len(),
        forall|q: int| 0 <= q < s.len() ==> #[trigger] s[q] == 0,
    ensures
        sum_upto(s, n) == 0,
    decreases n,
{
    if n > 0 {
        lemma_sum_zero(s, n - 1);
    }
}

}
