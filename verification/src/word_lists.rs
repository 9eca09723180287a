use vstd::prelude::*;

use crate::solver::all_words;
use crate::text::{chars_of, trim, trim_range};
use crate::word::{
    char_codes, is_word, lemma_word_key_injective, lemma_word_view_injective, spells_upper_word,
    word_key, Word,
};

verus! {

/// Whether `text[i..j]` is one line of `text`: it runs between line breaks (or
/// the ends of the text) and holds none.
pub open spec fn is_line(text: Seq<char>, i: int, j: int) -> bool {
    &&& 0 <= i <= j <= text.len()
    &&& (i == 0 || text[i - 1] == '\n')
    &&& (j == text.len() || text[j] == '\n')
    &&& forall|k: int| i <= k < j ==> text[k] != '\n'
}

/// Whether the line `text[i..j]`, trimmed, is the word with letters `w`.
pub open spec fn line_spells(text: Seq<char>, i: int, j: int, w: Seq<u8>) -> bool {
    let t = trim(text.subrange(i, j));
    spells_upper_word(t) && char_codes(t) == w
}

/// Whether some line of `text`, trimmed, is the word with letters `w`.
pub open spec fn lists_word(text: Seq<char>, w: Seq<u8>) -> bool {
    exists|i: int, j: int| is_line(text, i, j) && #[trigger] line_spells(text, i, j, w)
}

/// Whether the keys of `ws` strictly increase, so the words are in alphabetical
/// order with no word twice.
pub open spec fn strictly_ascending(ws: Seq<Word>) -> bool {
    forall|i: int, j: int| 0 <= i < j < ws.len() ==> word_key(#[trigger] ws[i]@) < word_key(#[trigger] ws[j]@)
}

/// The answer list and the guess list of a game.
pub struct WordLists {
    pub answers: Vec<Word>,
    pub guesses: Vec<Word>,
}

/// Adds `w` to the alphabetical list `v` unless it is there already.
fn insert_sorted(v: &mut Vec<Word>, w: Word)
    requires
        strictly_ascending(old(v)@),
        all_words(old(v)@),
    ensures
        strictly_ascending(final(v)@),
        all_words(final(v)@),
        forall|x: Word| #[trigger] final(v)@.contains(x) <==> (old(v)@.contains(x) || x == w),
{
    let k = w.key();
    let mut lo: usize = 0;
    let mut hi: usize = v.len();
    while lo < hi
        invariant
            lo <= hi <= v@.len(),
            strictly_ascending(v@),
            all_words(v@),
            k == word_key(w@),
            forall|i: int| 0 <= i < lo ==> word_key(#[trigger] v@[i]@) < k,
            forall|i: int| hi <= i < v@.len() ==> word_key(#[trigger] v@[i]@) >= k,
        decreases hi - lo,
    {
        let mid = lo + (hi - lo) / 2;
        let m = v[mid];
        if m.key() < k {
            lo = mid + 1;
        } else {
            hi = mid;
        }
    }
    if lo < v.len() {
        let found = v[lo];
        if found.key() == k {
            proof {
                lemma_word_key_injective(found@, w@);
                lemma_word_view_injective(found, w);
            }
            return;
        }
    }
    let ghost old_v = v@;
    v.insert(lo, w);
    proof {
        assert(v@ =~= old_v.insert(lo as int, w));
        assert forall|i: int, j: int| 0 <= i < j < v@.len() implies word_key(#[trigger] v@[i]@) < word_key(#[trigger] v@[j]@) by {
            if j < lo {
            } else if j == lo {
                assert(v@[i] == old_v[i]);
            } else if i < lo {
                assert(v@[j] == old_v[j - 1]);
            } else if i == lo {
                assert(v@[j] == old_v[j - 1]);
                if j - 1 > lo {
                    assert(word_key(old_v[lo as int]@) < word_key(old_v[j - 1]@));
                }
            } else {
                assert(v@[i] == old_v[i - 1] && v@[j] == old_v[j - 1]);
            }
        }
        assert forall|x: Word| #[trigger] v@.contains(x) <==> (old_v.contains(x) || x == w) by {
            if v@.contains(x) {
                let i = choose|i: int| 0 <= i < v@.len() && v@[i] == x;
                if i < lo {
                    assert(old_v[i] == x);
                } else if i > lo {
                    assert(old_v[i - 1] == x);
                }
            }
            if old_v.contains(x) {
                let i = choose|i: int| 0 <= i < old_v.len() && old_v[i] == x;
                if i < lo {
                    assert(v@[i] == x);
                } else {
                    assert(v@[i + 1] == x);
                }
            }
            if x == w {
                assert(v@[lo as int] == x);
            }
        }
    }
}


/// The word that the line `chars[lo..hi]` spells once trimmed, if it spells one.
fn word_in_line(chars: &[char], lo: usize, hi: usize) -> (r: Option<Word>)
    requires
        lo <= hi <= chars@.len(),
    ensures
        r is Some <==> spells_upper_word(trim(chars@.subrange(lo as int, hi as int))),
        r matches Some(w) ==> w@ == char_codes(trim(chars@.subrange(lo as int, hi as int))),
{
    let (a, b) = trim_range(chars, lo, hi);
    if b - a != crate::word::WORD_LEN {
        return None;
    }
    let mut piece: Vec<char> = Vec::new();
    let mut i = a;
    while i < b
        invariant
            a <= i <= b <= chars@.len(),
            piece@ == chars@.subrange(a as int, i as int),
        decreases b - i,
    {
        piece.push(chars[i]);
        proof {
            assert(chars@.subrange(a as int, i + 1) =~= chars@.subrange(a as int, i as int).push(chars@[i as int]));
        }
        i += 1;
    }
    Word::from_upper_chars(piece.as_slice())
}

proof fn lemma_line_ends(s: Seq<char>, start: int, end: int, p: int, q: int)
    requires
        0 <= start <= end <= s.len(),
        start == 0 || s[start - 1] == '\n',
        forall|k: int| start <= k < end ==> s[k] != '\n',
        end == s.len() || s[end] == '\n',
        is_line(s, p, q),
        q <= end,
    ensures
        q < start || (p == start && q == end),
{
    if q >= start {
        if p < start {
            assert(s[start - 1] == '\n');
        } else if p > start {
            assert(s[p - 1] == '\n');
        }
        if q < end {
            assert(s[q] == '\n');
        }
    }
}

/// The words that the lines of `raw_text` spell, once trimmed, in alphabetical
/// order and each once; lines that spell no word are skipped.
pub fn extract_word_set(raw_text: &str) -> (words: Vec<Word>)
    ensures
        strictly_ascending(words@),
        all_words(words@),
        forall|w: Word| #[trigger] words@.contains(w) <==> lists_word(raw_text@, w@),
{
    let chars = chars_of(raw_text);
    let ghost s = chars@;
    let mut words: Vec<Word> = Vec::new();
    let mut start: usize = 0;
    let mut i: usize = 0;
    while i < chars.len()
        invariant
            s == chars@,
            0 <= start <= i <= s.len(),
            start == 0 || s[start - 1] == '\n',
            forall|k: int| start <= k < i ==> s[k] != '\n',
            strictly_ascending(words@),
            all_words(words@),
            forall|x: Word| #[trigger] words@.contains(x) <==> exists|p: int, q: int|
                is_line(s, p, q) && q < start && #[trigger] line_spells(s, p, q, x@),
        decreases s.len() - i,
    {
        if chars[i] == '\n' {
            let found = word_in_line(chars.as_slice(), start, i);
            let ghost old_words = words@;
            if let Some(w) = found {
                insert_sorted(&mut words, w);
            }
            proof {
                assert(is_line(s, start as int, i as int));
                assert forall|x: Word| #[trigger] words@.contains(x) <==> exists|p: int, q: int|
                    is_line(s, p, q) && q < i + 1 && #[trigger] line_spells(s, p, q, x@) by {
                    if words@.contains(x) {
                        if old_words.contains(x) {
                            let (p, q) = choose|p: int, q: int| is_line(s, p, q) && q < start && #[trigger] line_spells(s, p, q, x@);
                            assert(is_line(s, p, q) && q < i + 1 && line_spells(s, p, q, x@));
                        } else {
                            assert(line_spells(s, start as int, i as int, x@));
                        }
                    }
                    if exists|p: int, q: int| is_line(s, p, q) && q < i + 1 && #[trigger] line_spells(s, p, q, x@) {
                        let (p, q) = choose|p: int, q: int| is_line(s, p, q) && q < i + 1 && #[trigger] line_spells(s, p, q, x@);
                        lemma_line_ends(s, start as int, i as int, p, q);
                        if q < start {
                            assert(old_words.contains(x));
                        } else {
                            let w = found->0;
                            lemma_word_key_injective(w@, x@);
                            assert(w@ == x@);
                            lemma_word_view_injective(w, x);
                        }
                    }
                }
            }
            start = i + 1;
        }
        i += 1;
    }
    let found = word_in_line(chars.as_slice(), start, chars.len());
    let ghost old_words = words@;
    if let Some(w) = found {
        insert_sorted(&mut words, w);
    }
    proof {
        assert(is_line(s, start as int, s.len() as int));
        assert forall|w: Word| #[trigger] words@.contains(w) <==> lists_word(raw_text@, w@) by {
            let x = w;
            if words@.contains(x) {
                if old_words.contains(x) {
                    let (p, q) = choose|p: int, q: int| is_line(s, p, q) && q < start && #[trigger] line_spells(s, p, q, x@);
                    assert(is_line(s, p, q) && line_spells(s, p, q, x@));
                } else {
                    assert(line_spells(s, start as int, s.len() as int, x@));
                }
            }
            if lists_word(s, x@) {
                let (p, q) = choose|p: int, q: int| is_line(s, p, q) && #[trigger] line_spells(s, p, q, x@);
                lemma_line_ends(s, start as int, s.len() as int, p, q);
                if q < start {
                    assert(old_words.contains(x));
                } else {
                    let f = found->0;
                    lemma_word_key_injective(f@, x@);
                    lemma_word_view_injective(f, x);
                }
            }
        }
    }
    words
}


/// The word lists of a game from the texts of its answer list and guess list,
/// one word per line: each list in alphabetical order without repeats, and every
/// answer also allowed as a guess.
pub fn load_word_lists(answers_text: &str, guesses_text: &str) -> (lists: WordLists)
    ensures
        strictly_ascending(lists.answers@),
        strictly_ascending(lists.guesses@),
        all_words(lists.answers@),
        all_words(lists.guesses@),
        forall|w: Word| #[trigger] lists.answers@.contains(w) <==> lists_word(answers_text@, w@),
        forall|w: Word|
            #[trigger] lists.guesses@.contains(w) <==> (lists_word(guesses_text@, w@) || lists_word(
                answers_text@,
                w@,
            )),
{
    let answers = extract_word_set(answers_text);
    let mut guesses = extract_word_set(guesses_text);
    let mut i: usize = 0;
    while i < answers.len()
        invariant
            i <= answers@.len(),
            strictly_ascending(guesses@),
            all_words(guesses@),
            all_words(answers@),
            forall|w: Word| #[trigger] answers@.contains(w) <==> lists_word(answers_text@, w@),
            forall|w: Word|
                #[trigger] guesses@.contains(w) <==> (lists_word(guesses_text@, w@) || answers@.take(
                    i as int,
                ).contains(w)),
        decreases answers@.len() - i,
    {
        let w = answers[i];
        insert_sorted(&mut guesses, w);
        proof {
            let t = answers@.take(i + 1);
            assert(t =~= answers@.take(i as int).push(w));
            assert forall|x: Word| #[trigger] t.contains(x) <==> (answers@.take(i as int).contains(x) || x == w) by {
                if t.contains(x) {
                    let j = choose|j: int| 0 <= j < t.len() && t[j] == x;
                    if j < i {
                        assert(answers@.take(i as int)[j] == x);
                    }
                }
                if answers@.take(i as int).contains(x) {
                    let j = choose|j: int| 0 <= j < i && answers@.take(i as int)[j] == x;
                    assert(t[j] == x);
                }
                if x == w {
                    assert(t[i as int] == x);
                }
            }
        }
        i += 1;
    }
    proof {
        assert(answers@.take(answers@.len() as int) =~= answers@);
    }
    WordLists { answers, guesses }
}


proof fn lemma_ascending_no_duplicates(ws: Seq<Word>)
    requires
        strictly_ascending(ws),
    ensures
        ws.no_duplicates(),
{
    assert forall|i: int, j: int| 0 <= i < ws.len() && 0 <= j < ws.len() && i != j implies ws[i] != ws[j] by {
        if i < j {
            assert(word_key(ws[i]@) < word_key(ws[j]@));
        } else {
            assert(word_key(ws[j]@) < word_key(ws[i]@));
        }
    }
}

/// Every answer may be guessed, so the guess list is at least as long as the
/// answer list.
pub proof fn lemma_guess_list_covers_answers(lists: WordLists, answers_text: Seq<char>, guesses_text: Seq<char>)
    requires
        strictly_ascending(lists.answers@),
        strictly_ascending(lists.guesses@),
        forall|w: Word| #[trigger] lists.answers@.contains(w) <==> lists_word(answers_text, w@),
        forall|w: Word|
            #[trigger] lists.guesses@.contains(w) <==> (lists_word(guesses_text, w@) || lists_word(answers_text, w@)),
    ensures
        forall|w: Word| #[trigger] lists.answers@.contains(w) ==> lists.guesses@.contains(w),
        lists.answers@.len() <= lists.guesses@.len(),
{
    broadcast use vstd::seq_lib::seq_to_set_is_finite;

    let a = lists.answers@;
    let g = lists.guesses@;
    lemma_ascending_no_duplicates(a);
    lemma_ascending_no_duplicates(g);
    a.unique_seq_to_set();
    g.unique_seq_to_set();
    assert forall|w: Word| a.to_set().contains(w) implies g.to_set().contains(w) by {
        assert(a.contains(w));
    }
    vstd::set_lib::lemma_len_subset(a.to_set(), g.to_set());
}

}
