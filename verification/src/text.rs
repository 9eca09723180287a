use vstd::prelude::*;

verus! {

/// The characters of `s`, in order.
pub fn chars_of(s: &str) -> (v: Vec<char>)
    ensures
        v@ == s@,
{
    let mut v: Vec<char> = Vec::new();
    for c in it: s.chars()
        invariant
            it.seq() == s@,
            v@ == it.seq().take(it.index() as int),
    {
        v.push(c);
    }
    v
}

/// The byte code of an ASCII character.
pub fn char_code(c: char) -> (b: u8)
    requires
        c <= '\u{7f}',
    ensures
        b == c as u8,
{
    c as u8
}

/// Whether `c` has the Unicode `White_Space` property, which is what
/// `char::is_whitespace` reports: tab, line feed, vertical tab, form feed,
/// carriage return, space, next line, no-break space, ogham space mark, the
/// spaces from en quad to hair space, line and paragraph separator, narrow
/// no-break space, medium mathematical space and ideographic space.
pub open spec fn unicode_white_space(c: char) -> bool {
    ||| '\u{9}' <= c <= '\u{d}'
    ||| c == ' '
    ||| c == '\u{85}'
    ||| c == '\u{a0}'
    ||| c == '\u{1680}'
    ||| '\u{2000}' <= c <= '\u{200a}'
    ||| c == '\u{2028}'
    ||| c == '\u{2029}'
    ||| c == '\u{202f}'
    ||| c == '\u{205f}'
    ||| c == '\u{3000}'
}

/// Whether `c` is white space, in the sense of `unicode_white_space`.
pub fn is_whitespace(c: char) -> (b: bool)
    ensures
        b == unicode_white_space(c),
{
    ('\u{9}' <= c && c <= '\u{d}') || c == ' ' || c == '\u{85}' || c == '\u{a0}' || c == '\u{1680}'
        || ('\u{2000}' <= c && c <= '\u{200a}') || c == '\u{2028}' || c == '\u{2029}' || c
        == '\u{202f}' || c == '\u{205f}' || c == '\u{3000}'
}

/// `s` without its leading white space.
pub open spec fn trim_start(s: Seq<char>) -> Seq<char>
    decreases s.len(),
{
    if s.len() > 0 && unicode_white_space(s[0]) {
        trim_start(s.drop_first())
    } else {
        s
    }
}

/// `s` without its trailing white space.
pub open spec fn trim_end(s: Seq<char>) -> Seq<char>
    decreases s.len(),
{
    if s.len() > 0 && unicode_white_space(s.last()) {
        trim_end(s.drop_last())
    } else {
        s
    }
}

/// `s` without its leading and trailing white space.
pub open spec fn trim(s: Seq<char>) -> Seq<char> {
    trim_end(trim_start(s))
}

/// Maps an ASCII lower-case letter to its upper-case letter and leaves every other character.
pub open spec fn ascii_upper(c: char) -> char {
    if 'a' <= c <= 'z' {
        ((c as int) - 32) as char
    } else {
        c
    }
}

/// `s` with every ASCII lower-case letter made upper-case.
pub open spec fn ascii_upper_seq(s: Seq<char>) -> Seq<char> {
    s.map_values(|c: char| ascii_upper(c))
}

/// Whether `c` is an ASCII letter of either case.
pub open spec fn is_ascii_letter(c: char) -> bool {
    ('A' <= c <= 'Z') || ('a' <= c <= 'z')
}

proof fn lemma_trim_start_skip(s: Seq<char>, k: int)
    requires
        0 <= k <= s.len(),
        forall|j: int| 0 <= j < k ==> unicode_white_space(#[trigger] s[j]),
    ensures
        trim_start(s) == trim_start(s.skip(k)),
    decreases k,
{
    if k > 0 {
        assert(s.drop_first().skip(k - 1) =~= s.skip(k));
        lemma_trim_start_skip(s.drop_first(), k - 1);
    } else {
        assert(s.skip(0) =~= s);
    }
}

proof fn lemma_trim_end_take(s: Seq<char>, k: int)
    requires
        0 <= k <= s.len(),
        forall|j: int| k <= j < s.len() ==> unicode_white_space(#[trigger] s[j]),
    ensures
        trim_end(s) == trim_end(s.take(k)),
    decreases s.len() - k,
{
    if k < s.len() {
        assert(s.drop_last().take(k) =~= s.take(k));
        lemma_trim_end_take(s.drop_last(), k);
    } else {
        assert(s.take(k) =~= s);
    }
}

/// The bounds `(a, b)` of the part of `chars[lo..hi]` that remains once white
/// space is trimmed from both ends.
pub fn trim_range(chars: &[char], lo: usize, hi: usize) -> (r: (usize, usize))
    requires
        lo <= hi <= chars@.len(),
    ensures
        lo <= r.0 <= r.1 <= hi,
        chars@.subrange(r.0 as int, r.1 as int) == trim(chars@.subrange(lo as int, hi as int)),
{
    let ghost s = chars@.subrange(lo as int, hi as int);
    let mut a: usize = lo;
    while a < hi && is_whitespace(chars[a])
        invariant
            lo <= a <= hi <= chars@.len(),
            s == chars@.subrange(lo as int, hi as int),
            forall|j: int| lo <= j < a ==> unicode_white_space(#[trigger] chars@[j]),
        decreases hi - a,
    {
        a += 1;
    }
    proof {
        assert forall|j: int| 0 <= j < a - lo implies unicode_white_space(#[trigger] s[j]) by {
            assert(s[j] == chars@[j + lo]);
        }
        lemma_trim_start_skip(s, a - lo);
        let t = s.skip(a - lo);
        assert(t =~= chars@.subrange(a as int, hi as int));
        if t.len() > 0 {
            assert(t[0] == chars@[a as int]);
        }
        assert(trim_start(t) == t);
    }
    let mut b: usize = hi;
    while b > a && is_whitespace(chars[b - 1])
        invariant
            lo <= a <= b <= hi <= chars@.len(),
            forall|j: int| b <= j < hi ==> unicode_white_space(#[trigger] chars@[j]),
        decreases b - a,
    {
        b -= 1;
    }
    proof {
        let t = chars@.subrange(a as int, hi as int);
        assert forall|j: int| (b - a) <= j < t.len() implies unicode_white_space(#[trigger] t[j]) by {
            assert(t[j] == chars@[j + a]);
        }
        lemma_trim_end_take(t, (b - a) as int);
        assert(t.take((b - a) as int) =~= chars@.subrange(a as int, b as int));
        let u = chars@.subrange(a as int, b as int);
        if u.len() > 0 {
            assert(u.last() == chars@[b - 1]);
        }
        assert(trim_end(u) == u);
    }
    (a, b)
}

/// The upper-case form of an ASCII letter; other characters are left as they are.
pub fn to_ascii_upper(c: char) -> (u: char)
    ensures
        u == ascii_upper(c),
{
    if 'a' <= c && c <= 'z' {
        let code = c as u32 - 32;
        proof { assert(ascii_upper(c) == code as char); }
        char_from_code(code)
    } else {
        c
    }
}

fn char_from_code(code: u32) -> (c: char)
    requires
        65 <= code <= 90,
    ensures
        c == code as char,
{
    (code as u8) as char
}


/// Calls `String::push`, which appends the character `c` to `s`.
#[verifier::external_body]
pub(crate) fn push_char(s: &mut String, c: char)
    ensures
        final(s)@ == old(s)@.push(c),
{
    s.push(c);
}

/// The white-space separated words of `s`, in order, each upper-cased.
pub open spec fn upper_tokens(s: Seq<char>) -> Seq<Seq<char>>
    decreases s.len(),
{
    if s.len() == 0 {
        seq![]
    } else {
        let init = s.drop_last();
        let c = s.last();
        let t = upper_tokens(init);
        if unicode_white_space(c) {
            t
        } else if init.len() > 0 && !unicode_white_space(init.last()) && t.len() > 0 {
            t.update(t.len() - 1, t.last().push(ascii_upper(c)))
        } else {
            t.push(seq![ascii_upper(c)])
        }
    }
}

proof fn lemma_upper_tokens_nonempty(s: Seq<char>)
    requires
        s.len() > 0,
        !unicode_white_space(s.last()),
    ensures
        upper_tokens(s).len() > 0,
{
}

/// Splits `line` at white space and upper-cases the ASCII letters of each piece.
pub fn split_upper_tokens(line: &str) -> (tokens: Vec<String>)
    ensures
        tokens@.map_values(|t: String| t@) == upper_tokens(line@),
{
    let chars = chars_of(line);
    let mut tokens: Vec<String> = Vec::new();
    let mut i: usize = 0;
    while i < chars.len()
        invariant
            i <= chars@.len(),
            tokens@.map_values(|t: String| t@) == upper_tokens(chars@.take(i as int)),
        decreases chars@.len() - i,
    {
        let c = chars[i];
        let ghost prefix = chars@.take(i as int);
        let ghost next = chars@.take(i + 1);
        proof {
            assert(next.drop_last() =~= prefix);
            assert(next.last() == c);
        }
        if !is_whitespace(c) {
            let continues = i > 0 && !is_whitespace(chars[i - 1]);
            let u = to_ascii_upper(c);
            if continues {
                proof {
                    assert(prefix.last() == chars@[i - 1]);
                    lemma_upper_tokens_nonempty(prefix);
                    assert(tokens@.map_values(|t: String| t@).len() == tokens@.len());
                }
                let last = tokens.len() - 1;
                let mut t = tokens.remove(last);
                push_char(&mut t, u);
                tokens.push(t);
            } else {
                let mut t = String::new();
                push_char(&mut t, u);
                tokens.push(t);
            }
        }
        proof {
            assert(tokens@.map_values(|t: String| t@) =~= upper_tokens(next));
        }
        i += 1;
    }
    proof {
        assert(chars@.take(chars@.len() as int) =~= line@);
    }
    tokens
}

}
