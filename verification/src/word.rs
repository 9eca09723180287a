use vstd::prelude::*;

use crate::text::{ascii_upper_seq, char_code, chars_of, push_char, to_ascii_upper, trim, trim_range};

verus! {

/// Number of letters in a word.
pub const WORD_LEN: usize = 5;

/// Whether `c` is an upper-case ASCII letter.
pub open spec fn is_upper_letter(c: char) -> bool {
    'A' <= c <= 'Z'
}

/// Whether the byte `b` is the code of an upper-case ASCII letter.
pub open spec fn is_upper_byte(b: u8) -> bool {
    65 <= b <= 90
}

/// A five-letter word in upper-case ASCII.
#[derive(Clone, Copy, Debug, Eq, PartialEq, Hash, Ord, PartialOrd)]
pub struct Word([u8; WORD_LEN]);

impl View for Word {
    type V = Seq<u8>;

    closed spec fn view(&self) -> Seq<u8> {
        self.0@
    }
}

/// Whether `s` spells a word: five upper-case ASCII letters.
pub open spec fn is_word(s: Seq<u8>) -> bool {
    &&& s.len() == WORD_LEN
    &&& forall|i: int| 0 <= i < s.len() ==> is_upper_byte(#[trigger] s[i])
}

/// The number that `Word::key` gives a word with the letters `s`.
pub open spec fn word_key(s: Seq<u8>) -> int {
    (((s[0] * 256 + s[1]) * 256 + s[2]) * 256 + s[3]) * 256 + s[4]
}

/// Distinct words have distinct keys.
pub proof fn lemma_word_key_injective(a: Seq<u8>, b: Seq<u8>)
    requires
        is_word(a),
        is_word(b),
        word_key(a) == word_key(b),
    ensures
        a == b,
{
    let (a0, a1, a2, a3, a4) = (a[0], a[1], a[2], a[3], a[4]);
    let (b0, b1, b2, b3, b4) = (b[0], b[1], b[2], b[3], b[4]);
    assert(a0 == b0 && a1 == b1 && a2 == b2 && a3 == b3 && a4 == b4) by (bit_vector)
        requires
            (((a0 * 256 + a1) * 256 + a2) * 256 + a3) * 256 + a4 == (((b0 * 256 + b1) * 256 + b2)
                * 256 + b3) * 256 + b4,
    ;
    assert(a =~= b);
}

/// The text of the word with letters `v`.
pub open spec fn word_text(v: Seq<u8>) -> Seq<char> {
    v.map_values(|b: u8| b as char)
}

/// Whether the letters `a` come before the letters `b` in alphabetical order:
/// at the first position where they differ, `a` has the smaller letter.
pub open spec fn alphabetically_before(a: Seq<u8>, b: Seq<u8>) -> bool {
    exists|i: int| 0 <= i < WORD_LEN && a.take(i) == b.take(i) && #[trigger] a[i] < b[i]
}

/// The first `n` letters of `s` read as base-256 digits.
pub open spec fn prefix_key(s: Seq<u8>, n: int) -> int
    decreases n,
{
    if n <= 0 {
        0
    } else {
        prefix_key(s, n - 1) * 256 + s[n - 1]
    }
}

proof fn lemma_prefix_key_order(a: Seq<u8>, b: Seq<u8>, n: int)
    requires
        0 <= n <= WORD_LEN,
        a.len() == WORD_LEN,
        b.len() == WORD_LEN,
    ensures
        (prefix_key(a, n) == prefix_key(b, n)) == (a.take(n) == b.take(n)),
        (prefix_key(a, n) < prefix_key(b, n)) == (exists|i: int|
            0 <= i < n && a.take(i) == b.take(i) && #[trigger] a[i] < b[i]),
    decreases n,
{
    if n == 0 {
        assert(a.take(0) =~= b.take(0));
    } else {
        lemma_prefix_key_order(a, b, n - 1);
        let (x, y, u, v) = (prefix_key(a, n - 1), prefix_key(b, n - 1), a[n - 1] as int, b[n - 1] as int);
        assert((x * 256 + u < y * 256 + v) == (x < y || (x == y && u < v))) by (nonlinear_arith)
            requires
                0 <= u < 256,
                0 <= v < 256,
        ;
        assert((x * 256 + u == y * 256 + v) == (x == y && u == v)) by (nonlinear_arith)
            requires
                0 <= u < 256,
                0 <= v < 256,
        ;
        if a.take(n) == b.take(n) {
            assert(a.take(n - 1) =~= a.take(n).take(n - 1));
            assert(b.take(n - 1) =~= b.take(n).take(n - 1));
            assert(a[n - 1] == a.take(n)[n - 1]);
            assert(b[n - 1] == b.take(n)[n - 1]);
        }
        if a.take(n - 1) == b.take(n - 1) && a[n - 1] == b[n - 1] {
            assert forall|k: int| 0 <= k < n implies a.take(n)[k] == b.take(n)[k] by {
                if k < n - 1 {
                    assert(a.take(n - 1)[k] == b.take(n - 1)[k]);
                }
            }
            assert(a.take(n) =~= b.take(n));
        }
        if exists|i: int| 0 <= i < n && a.take(i) == b.take(i) && #[trigger] a[i] < b[i] {
            let i = choose|i: int| 0 <= i < n && a.take(i) == b.take(i) && #[trigger] a[i] < b[i];
            if i == n - 1 {
            } else {
                assert(a.take(n - 1)[i] != b.take(n - 1)[i]);
            }
        }
        if x == y && u < v {
            assert(a.take(n - 1) == b.take(n - 1) && a[n - 1] < b[n - 1]);
        }
    }
}

/// Keys follow alphabetical order.
pub proof fn lemma_key_order_is_alphabetical(a: Seq<u8>, b: Seq<u8>)
    requires
        is_word(a),
        is_word(b),
    ensures
        (word_key(a) < word_key(b)) == alphabetically_before(a, b),
{
    lemma_prefix_key_order(a, b, WORD_LEN as int);
    reveal_with_fuel(prefix_key, 6);
    assert(prefix_key(a, 5) == word_key(a));
    assert(prefix_key(b, 5) == word_key(b));
}

/// Two words with the same letters are the same word.
pub proof fn lemma_word_view_injective(a: Word, b: Word)
    requires
        a@ == b@,
    ensures
        a == b,
{
    broadcast use vstd::array::group_array_axioms;
    assert(a.0 == b.0);
}

/// Whether `s` is exactly five upper-case ASCII letters.
pub open spec fn spells_upper_word(s: Seq<char>) -> bool {
    &&& s.len() == WORD_LEN
    &&& forall|i: int| 0 <= i < s.len() ==> is_upper_letter(#[trigger] s[i])
}

/// The byte codes of the characters of `s`.
pub open spec fn char_codes(s: Seq<char>) -> Seq<u8> {
    s.map_values(|c: char| c as u8)
}

impl Word {
    #[verifier::type_invariant]
    spec fn letters_are_upper(self) -> bool {
        forall|i: int| 0 <= i < WORD_LEN ==> is_upper_byte(#[trigger] self.0[i])
    }

    /// The word spelled by `chars`, when they are five upper-case ASCII letters.
    pub fn from_upper_chars(chars: &[char]) -> (r: Option<Word>)
        ensures
            r is Some <==> spells_upper_word(chars@),
            r matches Some(w) ==> w@ == char_codes(chars@),
    {
        if chars.len() != WORD_LEN {
            return None;
        }
        let mut i: usize = 0;
        while i < WORD_LEN
            invariant
                chars@.len() == WORD_LEN,
                i <= WORD_LEN,
                forall|j: int| 0 <= j < i ==> is_upper_letter(#[trigger] chars@[j]),
            decreases WORD_LEN - i,
        {
            let c = chars[i];
            if !('A' <= c && c <= 'Z') {
                return None;
            }
            i += 1;
        }
        let w = Word(
            [
                char_code(chars[0]),
                char_code(chars[1]),
                char_code(chars[2]),
                char_code(chars[3]),
                char_code(chars[4]),
            ],
        );
        assert(w.0@ =~= char_codes(chars@));
        Some(w)
    }

    /// Reads a word that is written in upper-case ASCII letters.
    pub fn parse_upper_ascii(raw: &str) -> (r: Option<Word>)
        ensures
            r is Some <==> spells_upper_word(raw@),
            r matches Some(w) ==> w@ == char_codes(raw@),
    {
        if raw.as_bytes().len() != WORD_LEN {
            proof {
                if spells_upper_word(raw@) {
                    vstd::utf8::is_ascii_chars_encode_utf8(raw@);
                }
            }
            return None;
        }
        let chars = chars_of(raw);
        Self::from_upper_chars(chars.as_slice())
    }

    /// Reads a word as a user types it: surrounding white space is ignored and
    /// lower-case letters count as upper-case ones.
    pub fn parse_user_input(raw: &str) -> (r: Option<Word>)
        ensures
            r is Some <==> spells_upper_word(ascii_upper_seq(trim(raw@))),
            r matches Some(w) ==> w@ == char_codes(ascii_upper_seq(trim(raw@))),
    {
        let chars = chars_of(raw);
        let (a, b) = trim_range(chars.as_slice(), 0, chars.len());
        proof {
            assert(chars@.subrange(0, chars@.len() as int) =~= raw@);
        }
        let mut upper: Vec<char> = Vec::new();
        let mut i = a;
        while i < b
            invariant
                a <= i <= b <= chars@.len(),
                upper@ == ascii_upper_seq(chars@.subrange(a as int, i as int)),
            decreases b - i,
        {
            upper.push(to_ascii_upper(chars[i]));
            proof {
                assert(ascii_upper_seq(chars@.subrange(a as int, i + 1)) =~= ascii_upper_seq(
                    chars@.subrange(a as int, i as int),
                ).push(crate::text::ascii_upper(chars@[i as int])));
            }
            i += 1;
        }
        Self::from_upper_chars(upper.as_slice())
    }

    /// A number that identifies the word: its letters read as base-256 digits,
    /// the first letter most significant.
    pub fn key(self) -> (k: u64)
        ensures
            k == word_key(self@),
            is_word(self@),
    {
        proof { use_type_invariant(&self); }
        let l = self.0;
        let k = (((l[0] as u64 * 256 + l[1] as u64) * 256 + l[2] as u64) * 256 + l[3] as u64) * 256
            + l[4] as u64;
        k
    }

    /// The word written out in upper-case letters.
    pub fn to_string(self) -> (s: String)
        ensures
            s@ == word_text(self@),
    {
        let l = self.letters();
        let mut s = String::new();
        let mut i: usize = 0;
        while i < WORD_LEN
            invariant
                l@ == self@,
                i <= WORD_LEN,
                s@ == word_text(self@).take(i as int),
            decreases WORD_LEN - i,
        {
            push_char(&mut s, l[i] as char);
            proof {
                assert(word_text(self@).take(i + 1) =~= word_text(self@).take(i as int).push(l@[i as int] as char));
            }
            i += 1;
        }
        proof {
            assert(word_text(self@).take(5) =~= word_text(self@));
        }
        s
    }

    pub fn letters(self) -> (l: [u8; WORD_LEN])
        ensures
            l@ == self@,
            is_word(self@),
    {
        proof { use_type_invariant(&self); }
        self.0
    }
}

}
