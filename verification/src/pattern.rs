use vstd::prelude::*;

use crate::text::{ascii_upper, ascii_upper_seq, chars_of};
use vstd::string::*;
use crate::word::WORD_LEN;

verus! {

/// Number of distinct feedback patterns: three colours on each of five tiles.
pub const NUM_PATTERNS: usize = 243;

/// The code of the all-green pattern.
pub const SOLVED_PATTERN: u16 = 242;

/// The code of marks `m` (0 = black, 1 = yellow, 2 = green), the first tile
/// being the least significant base-3 digit.
pub open spec fn encode_marks(m: Seq<u8>) -> int {
    m[0] + 3 * m[1] + 9 * m[2] + 27 * m[3] + 81 * m[4]
}

/// Whether `m` is a list of five marks, each 0, 1 or 2.
pub open spec fn valid_marks(m: Seq<u8>) -> bool {
    &&& m.len() == WORD_LEN
    &&& forall|i: int| 0 <= i < m.len() ==> #[trigger] m[i] < 3
}

/// The marks of the pattern with code `v`: its base-3 digits, least significant first.
pub open spec fn marks_of(v: int) -> Seq<u8> {
    seq![(v % 3) as u8, ((v / 3) % 3) as u8, ((v / 9) % 3) as u8, ((v / 27) % 3) as u8, ((v / 81) % 3) as u8]
}

/// The letter that shows mark `m`.
pub open spec fn mark_symbol(m: u8) -> char {
    if m == 0 {
        'B'
    } else if m == 1 {
        'Y'
    } else {
        'G'
    }
}

/// The mark that symbol `c` stands for, in either case, if it stands for one.
pub open spec fn symbol_mark(c: char) -> Option<u8> {
    if c == 'B' || c == 'b' {
        Some(0u8)
    } else if c == 'Y' || c == 'y' {
        Some(1u8)
    } else if c == 'G' || c == 'g' {
        Some(2u8)
    } else {
        None
    }
}

/// The text of the pattern with code `v`, one of `B`, `Y`, `G` per tile.
pub open spec fn pattern_text(v: int) -> Seq<char> {
    marks_of(v).map_values(|m: u8| mark_symbol(m))
}

/// The marks that the symbols of `s` stand for.
pub open spec fn symbols_marks(s: Seq<char>) -> Seq<u8> {
    s.map_values(|c: char| symbol_mark(c)->0)
}

/// Whether every character of `s` is one of `B`, `Y`, `G` in either case.
pub open spec fn all_symbols(s: Seq<char>) -> bool {
    forall|i: int| 0 <= i < s.len() ==> (#[trigger] symbol_mark(s[i])) is Some
}

/// Message for a pattern whose length is wrong.
pub open spec fn length_error_text() -> Seq<char> {
    "Pattern must be exactly 5 chars using B/Y/G."@
}

/// Message for a pattern with a symbol that is not `B`, `Y` or `G`.
pub open spec fn symbol_error_text() -> Seq<char> {
    "Pattern can only contain B, Y, or G."@
}

/// What reading `raw` as a pattern gives: the pattern's code, or the message
/// of what is wrong. The length is counted in UTF-8 bytes.
pub open spec fn parse_outcome(raw: Seq<char>) -> Result<int, Seq<char>> {
    if vstd::utf8::encode_utf8(raw).len() != WORD_LEN {
        Err(length_error_text())
    } else if !all_symbols(raw) {
        Err(symbol_error_text())
    } else {
        Ok(encode_marks(symbols_marks(raw)))
    }
}

/// Codes and marks of patterns are in one-to-one correspondence.
pub proof fn lemma_marks_round_trip(v: int, m: Seq<u8>)
    ensures
        0 <= v < NUM_PATTERNS ==> encode_marks(marks_of(v)) == v && valid_marks(marks_of(v)),
        valid_marks(m) ==> marks_of(encode_marks(m)) == m && 0 <= encode_marks(m) < NUM_PATTERNS,
{
    if valid_marks(m) {
        let e = encode_marks(m);
        assert(0 <= e < 243);
        assert(e % 3 == m[0]);
        assert((e / 3) % 3 == m[1]);
        assert((e / 9) % 3 == m[2]);
        assert((e / 27) % 3 == m[3]);
        assert((e / 81) % 3 == m[4]);
        assert(marks_of(e) =~= m);
    }
}

/// The colours of a guess's tiles, coded as a number below `NUM_PATTERNS`.
#[derive(Clone, Copy, Debug, Eq, PartialEq, Hash, Structural)]
pub struct Pattern(u16);

impl View for Pattern {
    type V = int;

    closed spec fn view(&self) -> int {
        self.0 as int
    }
}

/// Writing a pattern out and reading it back gives the same pattern code.
pub proof fn lemma_text_parses_back(v: int)
    requires
        0 <= v < NUM_PATTERNS,
    ensures
        pattern_text(v).len() == WORD_LEN,
        parse_outcome(pattern_text(v)) == Ok::<int, Seq<char>>(v),
{
    lemma_marks_round_trip(v, seq![]);
    let t = pattern_text(v);
    let m = marks_of(v);
    assert forall|i: int| 0 <= i < t.len() implies (#[trigger] symbol_mark(t[i])) is Some && symbol_mark(t[i])->0 == m[i] by {
        assert(t[i] == mark_symbol(m[i]));
    }
    assert(symbols_marks(t) =~= m);
    assert(vstd::utf8::is_ascii_chars(t));
    vstd::utf8::is_ascii_chars_encode_utf8(t);
}

/// Reading a pattern and writing it out gives back the text, in upper case.
pub proof fn lemma_parsed_text_round_trip(t: Seq<char>)
    requires
        t.len() == WORD_LEN,
        all_symbols(t),
    ensures
        pattern_text(encode_marks(symbols_marks(t))) == ascii_upper_seq(t),
{
    let m = symbols_marks(t);
    assert forall|i: int| 0 <= i < m.len() implies #[trigger] m[i] < 3 by {
        assert(symbol_mark(t[i]) is Some);
    }
    lemma_marks_round_trip(0, m);
    assert forall|i: int| 0 <= i < WORD_LEN implies #[trigger] pattern_text(encode_marks(m))[i] == ascii_upper_seq(t)[i] by {
        let c = t[i];
        assert(symbol_mark(c) is Some);
        assert('b' as int - 32 == 'B' as int);
        assert('y' as int - 32 == 'Y' as int);
        assert('g' as int - 32 == 'G' as int);
        assert(ascii_upper(c) == mark_symbol(m[i]));
    }
    assert(pattern_text(encode_marks(m)) =~= ascii_upper_seq(t));
}

/// Two patterns with the same code are the same pattern.
pub proof fn lemma_pattern_view_injective(a: Pattern, b: Pattern)
    requires
        a@ == b@,
    ensures
        a == b,
{
}

impl Pattern {
    #[verifier::type_invariant]
    spec fn code_in_range(self) -> bool {
        self.0 < NUM_PATTERNS
    }

    /// The pattern with the given marks.
    pub fn from_marks(marks: [u8; WORD_LEN]) -> (p: Pattern)
        requires
            valid_marks(marks@),
        ensures
            p@ == encode_marks(marks@),
    {
        proof { lemma_marks_round_trip(0, marks@); }
        let v = marks[0] as u16 + 3 * marks[1] as u16 + 9 * marks[2] as u16 + 27 * marks[3] as u16
            + 81 * marks[4] as u16;
        Pattern(v)
    }

    /// The marks of the pattern, one per tile.
    pub fn marks(self) -> (m: [u8; WORD_LEN])
        ensures
            m@ == marks_of(self@),
            valid_marks(m@),
    {
        proof {
            use_type_invariant(&self);
            lemma_marks_round_trip(self@, seq![]);
        }
        let v = self.0;
        let m = [(v % 3) as u8, ((v / 3) % 3) as u8, ((v / 9) % 3) as u8, ((v / 27) % 3) as u8, ((v / 81) % 3) as u8];
        assert(m@ =~= marks_of(self@));
        m
    }

    /// The pattern's code, usable as an index below `NUM_PATTERNS`.
    pub fn index(self) -> (i: usize)
        ensures
            i == self@,
            i < NUM_PATTERNS,
    {
        proof { use_type_invariant(&self); }
        self.0 as usize
    }

    /// Reads a pattern written as five of `B`, `Y`, `G` (black, yellow, green),
    /// in either case, first tile first.
    pub fn parse(raw: &str) -> (r: Result<Pattern, String>)
        ensures
            match r {
                Ok(p) => parse_outcome(raw@) == Ok::<int, Seq<char>>(p@) && raw@.len() == WORD_LEN,
                Err(e) => parse_outcome(raw@) == Err::<int, Seq<char>>(e@),
            },
            r matches Ok(p) ==> forall|i: int|
                0 <= i < WORD_LEN ==> {
                    &&& (#[trigger] marks_of(p@)[i] == 2) == (raw@[i] == 'G' || raw@[i] == 'g')
                    &&& (marks_of(p@)[i] == 1) == (raw@[i] == 'Y' || raw@[i] == 'y')
                    &&& (marks_of(p@)[i] == 0) == (raw@[i] == 'B' || raw@[i] == 'b')
                },
    {
        if raw.as_bytes().len() != WORD_LEN {
            return Err(String::from_str("Pattern must be exactly 5 chars using B/Y/G."));
        }
        let chars = chars_of(raw);
        let mut marks: Vec<u8> = Vec::new();
        let mut i: usize = 0;
        while i < chars.len()
            invariant
                chars@ == raw@,
                raw.spec_bytes().len() == WORD_LEN,
                i <= chars@.len(),
                marks@ == symbols_marks(chars@.take(i as int)),
                forall|j: int| 0 <= j < i ==> (#[trigger] symbol_mark(chars@[j])) is Some,
            decreases chars@.len() - i,
        {
            let c = chars[i];
            let m: u8 = if c == 'B' || c == 'b' {
                0
            } else if c == 'Y' || c == 'y' {
                1
            } else if c == 'G' || c == 'g' {
                2
            } else {
                assert(symbol_mark(chars@[i as int]) is None);
                return Err(String::from_str("Pattern can only contain B, Y, or G."));
            };
            marks.push(m);
            proof {
                assert(symbols_marks(chars@.take(i + 1)) =~= symbols_marks(chars@.take(i as int)).push(m));
            }
            i += 1;
        }
        proof {
            assert(chars@.take(chars@.len() as int) =~= chars@);
            assert forall|j: int| 0 <= j < raw@.len() implies '\0' <= #[trigger] raw@[j] <= '\u{7f}' by {
                assert(symbol_mark(chars@[j]) is Some);
            }
            assert(vstd::utf8::is_ascii_chars(raw@));
            vstd::utf8::is_ascii_chars_encode_utf8(raw@);
        }
        let p = Self::from_marks([marks[0], marks[1], marks[2], marks[3], marks[4]]);
        proof {
            let m = symbols_marks(raw@);
            assert(m =~= marks@);
            assert(valid_marks(m)) by {
                assert forall|i: int| 0 <= i < m.len() implies #[trigger] m[i] < 3 by {
                    assert(symbol_mark(raw@[i]) is Some);
                }
            }
            lemma_marks_round_trip(0, m);
            assert forall|i: int| 0 <= i < WORD_LEN implies #[trigger] marks_of(p@)[i] == m[i] by {}
            assert forall|i: int| 0 <= i < WORD_LEN implies symbol_mark(#[trigger] raw@[i]) is Some by {}
        }
        Ok(p)
    }

    /// The pattern written as one of `B`, `Y`, `G` per tile.
    pub fn to_string(self) -> (s: String)
        ensures
            s@ == pattern_text(self@),
    {
        let m = self.marks();
        let mut s = String::new();
        let mut i: usize = 0;
        while i < WORD_LEN
            invariant
                m@ == marks_of(self@),
                valid_marks(m@),
                i <= WORD_LEN,
                s@ == pattern_text(self@).take(i as int),
            decreases WORD_LEN - i,
        {
            proof {
                reveal_strlit("B");
                reveal_strlit("Y");
                reveal_strlit("G");
            }
            if m[i] == 0 {
                s.append("B");
            } else if m[i] == 1 {
                s.append("Y");
            } else {
                s.append("G");
            }
            proof {
                assert(pattern_text(self@).take(i + 1) =~= pattern_text(self@).take(i as int).push(
                    mark_symbol(m@[i as int]),
                ));
            }
            i += 1;
        }
        proof {
            assert(pattern_text(self@).take(5) =~= pattern_text(self@));
        }
        s
    }

    /// Whether every tile is green.
    pub fn is_solved(self) -> (b: bool)
        ensures
            b == (self@ == SOLVED_PATTERN),
            b == forall|i: int| 0 <= i < WORD_LEN ==> #[trigger] marks_of(self@)[i] == 2,
    {
        proof {
            use_type_invariant(&self);
            lemma_marks_round_trip(self@, seq![]);
            let m = marks_of(self@);
            if forall|i: int| 0 <= i < WORD_LEN ==> #[trigger] marks_of(self@)[i] == 2 {
                assert(m[0] == 2 && m[1] == 2 && m[2] == 2 && m[3] == 2 && m[4] == 2);
            }
        }
        self.0 == SOLVED_PATTERN
    }
}

}
