use vstd::prelude::*;

use crate::text::chars_of;
use crate::text::{ascii_upper_seq, trim};
use crate::word::{char_codes, spells_upper_word, Word};
use vstd::string::*;

verus! {

/// The usage text printed for `--help`.
pub open spec fn help_text_spec() -> Seq<char> {
    "WordleBot Rust (terminal)

Usage:
  cargo run -- [--hard] [--top N]
  cargo run -- --answer WORD [--start WORD] [--hard] [--max-guesses N]

Flags:
  --hard            Only suggest/accept guesses that reuse revealed hints (Wordle hard mode)
  --top N           Number of suggestions to show (default: 10)
  --answer WORD     Run automatic simulation against a known answer
  --start WORD      Starting guess for simulation mode
  --max-guesses N   Guess limit in simulation mode (default: 6)
"@
}

/// The usage text printed for `--help`.
pub fn help_text() -> (text: String)
    ensures
        text@ == help_text_spec(),
{
    String::from_str(
        "WordleBot Rust (terminal)

Usage:
  cargo run -- [--hard] [--top N]
  cargo run -- --answer WORD [--start WORD] [--hard] [--max-guesses N]

Flags:
  --hard            Only suggest/accept guesses that reuse revealed hints (Wordle hard mode)
  --top N           Number of suggestions to show (default: 10)
  --answer WORD     Run automatic simulation against a known answer
  --start WORD      Starting guess for simulation mode
  --max-guesses N   Guess limit in simulation mode (default: 6)
",
    )
}

/// Whether every character of `d` is a decimal digit.
pub open spec fn all_digits(d: Seq<char>) -> bool {
    forall|i: int| 0 <= i < d.len() ==> '0' <= #[trigger] d[i] <= '9'
}

/// The number that the decimal digits `d` spell, most significant first.
pub open spec fn decimal_value(d: Seq<char>) -> nat
    decreases d.len(),
{
    if d.len() == 0 {
        0
    } else {
        decimal_value(d.drop_last()) * 10 + ((d.last() as int) - ('0' as int)) as nat
    }
}

/// What `usize`'s `from_str` accepts: an optional `+` and then one or more
/// decimal digits whose value fits in a `usize`.
pub open spec fn parsed_usize(s: Seq<char>) -> Option<usize> {
    let d = if s.len() > 0 && s[0] == '+' {
        s.drop_first()
    } else {
        s
    };
    if d.len() > 0 && all_digits(d) && decimal_value(d) <= usize::MAX {
        Some(decimal_value(d) as usize)
    } else {
        None
    }
}

proof fn lemma_decimal_value_grows(d: Seq<char>, i: int)
    requires
        0 <= i <= d.len(),
        all_digits(d),
    ensures
        decimal_value(d.take(i)) <= decimal_value(d),
    decreases d.len() - i,
{
    if i < d.len() {
        lemma_decimal_value_grows(d, i + 1);
        assert(d.take(i + 1).drop_last() =~= d.take(i));
    } else {
        assert(d.take(i) =~= d);
    }
}

/// Reads a `usize` as `str::parse::<usize>` does: an optional `+` and then one
/// or more decimal digits whose value fits.
pub fn parse_usize(s: &str) -> (r: Option<usize>)
    ensures
        r == parsed_usize(s@),
{
    let chars = chars_of(s);
    let start: usize = if chars.len() > 0 && chars[0] == '+' {
        1
    } else {
        0
    };
    let ghost d = s@.subrange(start as int, s@.len() as int);
    proof {
        if start == 1 {
            assert(d =~= s@.drop_first());
        } else {
            assert(d =~= s@);
        }
    }
    if start >= chars.len() {
        return None;
    }
    let mut value: usize = 0;
    let mut i = start;
    while i < chars.len()
        invariant
            chars@ == s@,
            d == s@.subrange(start as int, s@.len() as int),
            d == (if s@.len() > 0 && s@[0] == '+' { s@.drop_first() } else { s@ }),
            d.len() > 0,
            start <= i <= chars@.len(),
            all_digits(d.take(i - start)),
            value == decimal_value(d.take(i - start)),
        decreases chars@.len() - i,
    {
        let c = chars[i];
        let ghost k = (i - start) as int;
        proof {
            assert(d[k] == c);
            assert(d.take(k + 1).drop_last() =~= d.take(k));
            assert(d.take(k + 1).last() == c);
        }
        if !('0' <= c && c <= '9') {
            proof {
                assert(!all_digits(d));
            }
            return None;
        }
        let digit = (c as u32 - '0' as u32) as usize;
        let next = match value.checked_mul(10) {
            Some(v) => v.checked_add(digit),
            None => None,
        };
        match next {
            Some(v) => {
                value = v;
            },
            None => {
                proof {
                    assert forall|j: int| 0 <= j < d.take(k + 1).len() implies '0' <= #[trigger] d.take(k + 1)[j] <= '9' by {
                        if j < k {
                            assert(d.take(k + 1)[j] == d.take(k)[j]);
                        }
                    }
                    if all_digits(d) {
                        lemma_decimal_value_grows(d, k + 1);
                    }
                }
                return None;
            },
        }
        proof {
            assert forall|j: int| 0 <= j < d.take(k + 1).len() implies '0' <= #[trigger] d.take(k + 1)[j] <= '9' by {
                if j < k {
                    assert(d.take(k + 1)[j] == d.take(k)[j]);
                }
            }
        }
        i += 1;
    }
    proof {
        assert(d.take(d.len() as int) =~= d);
    }
    Some(value)
}

/// Whether `a` and `b` hold the same characters.
pub fn str_equals(a: &str, b: &str) -> (eq: bool)
    ensures
        eq == (a@ == b@),
{
    let ac = chars_of(a);
    let bc = chars_of(b);
    if ac.len() != bc.len() {
        return false;
    }
    let mut i: usize = 0;
    while i < ac.len()
        invariant
            ac@ == a@,
            bc@ == b@,
            ac@.len() == bc@.len(),
            i <= ac@.len(),
            forall|j: int| 0 <= j < i ==> ac@[j] == bc@[j],
        decreases ac@.len() - i,
    {
        if ac[i] != bc[i] {
            return false;
        }
        i += 1;
    }
    proof {
        assert(ac@ =~= bc@);
    }
    true
}


/// The options of a run.
pub struct Config {
    pub hard_mode: bool,
    pub top_n: usize,
    pub max_guesses: usize,
    pub simulate_answer: Option<Word>,
    pub simulate_start: Option<Word>,
}

/// The options of a run, with words taken by their letters.
pub struct ConfigView {
    pub hard_mode: bool,
    pub top_n: usize,
    pub max_guesses: usize,
    pub simulate_answer: Option<Seq<u8>>,
    pub simulate_start: Option<Seq<u8>>,
}

/// The letters of the word in `w`, if any.
pub open spec fn word_view(w: Option<Word>) -> Option<Seq<u8>> {
    match w {
        Some(x) => Some(x@),
        None => None,
    }
}

impl View for Config {
    type V = ConfigView;

    open spec fn view(&self) -> ConfigView {
        ConfigView {
            hard_mode: self.hard_mode,
            top_n: self.top_n,
            max_guesses: self.max_guesses,
            simulate_answer: word_view(self.simulate_answer),
            simulate_start: word_view(self.simulate_start),
        }
    }
}

/// What the command line asks for.
pub enum CliAction {
    /// Play or simulate with these options.
    Run(Config),
    /// Print the usage text and stop.
    Help,
}

/// What the command line asks for, or the message of what is wrong with it.
pub enum ArgsOutcome {
    Run(ConfigView),
    Help,
    Error(Seq<char>),
}

/// The options in force when no flag is given.
pub open spec fn default_config() -> ConfigView {
    ConfigView { hard_mode: false, top_n: 10, max_guesses: 6, simulate_answer: None, simulate_start: None }
}

/// The word that a user typed as `s`, by its letters, if it is one.
pub open spec fn typed_word(s: Seq<char>) -> Option<Seq<u8>> {
    let t = ascii_upper_seq(trim(s));
    if spells_upper_word(t) {
        Some(char_codes(t))
    } else {
        None
    }
}

/// Reads the arguments from `i` on, with `cfg` holding what was read before.
pub open spec fn parse_from(args: Seq<Seq<char>>, i: int, cfg: ConfigView) -> ArgsOutcome
    decreases args.len() - i,
{
    if i < 0 || i >= args.len() {
        ArgsOutcome::Run(cfg)
    } else {
        let a = args[i];
        let has_value = i + 1 < args.len();
        if a == "--hard"@ {
            parse_from(args, i + 1, ConfigView { hard_mode: true, ..cfg })
        } else if a == "--top"@ {
            if !has_value {
                ArgsOutcome::Error("--top expects a number"@)
            } else {
                match parsed_usize(args[i + 1]) {
                    None => ArgsOutcome::Error("--top expects a positive integer"@),
                    Some(n) => if n == 0 {
                        ArgsOutcome::Error("--top must be >= 1"@)
                    } else {
                        parse_from(args, i + 2, ConfigView { top_n: n, ..cfg })
                    },
                }
            }
        } else if a == "--max-guesses"@ {
            if !has_value {
                ArgsOutcome::Error("--max-guesses expects a number"@)
            } else {
                match parsed_usize(args[i + 1]) {
                    None => ArgsOutcome::Error("--max-guesses expects a positive integer"@),
                    Some(n) => if n == 0 {
                        ArgsOutcome::Error("--max-guesses must be >= 1"@)
                    } else {
                        parse_from(args, i + 2, ConfigView { max_guesses: n, ..cfg })
                    },
                }
            }
        } else if a == "--answer"@ {
            if !has_value {
                ArgsOutcome::Error("--answer expects a 5-letter word"@)
            } else {
                match typed_word(args[i + 1]) {
                    None => ArgsOutcome::Error("--answer expects a valid 5-letter word"@),
                    Some(w) => parse_from(args, i + 2, ConfigView { simulate_answer: Some(w), ..cfg }),
                }
            }
        } else if a == "--start"@ {
            if !has_value {
                ArgsOutcome::Error("--start expects a 5-letter word"@)
            } else {
                match typed_word(args[i + 1]) {
                    None => ArgsOutcome::Error("--start expects a valid 5-letter word"@),
                    Some(w) => parse_from(args, i + 2, ConfigView { simulate_start: Some(w), ..cfg }),
                }
            }
        } else if a == "--help"@ || a == "-h"@ {
            ArgsOutcome::Help
        } else {
            ArgsOutcome::Error("Unknown argument: "@ + a + "\n\n"@ + help_text_spec())
        }
    }
}

/// What the result of `parse_args` says, by views.
pub open spec fn outcome_of(r: Result<CliAction, String>) -> ArgsOutcome {
    match r {
        Ok(CliAction::Run(c)) => ArgsOutcome::Run(c@),
        Ok(CliAction::Help) => ArgsOutcome::Help,
        Err(e) => ArgsOutcome::Error(e@),
    }
}

/// The characters of each argument.
pub open spec fn arg_views(args: Seq<String>) -> Seq<Seq<char>> {
    args.map_values(|a: String| a@)
}

/// Reads the command-line arguments (the program name left out): `--hard`,
/// `--top N`, `--max-guesses N`, `--answer WORD`, `--start WORD`, and
/// `--help` or `-h`, which stops reading.
pub fn parse_args(args: &[String]) -> (r: Result<CliAction, String>)
    ensures
        outcome_of(r) == parse_from(arg_views(args@), 0, default_config()),
{
    let ghost views = arg_views(args@);
    let mut config = Config { hard_mode: false, top_n: 10, max_guesses: 6, simulate_answer: None, simulate_start: None };
    let mut i: usize = 0;
    while i < args.len()
        invariant
            views == arg_views(args@),
            views.len() == args@.len(),
            i <= args@.len(),
            parse_from(views, 0, default_config()) == parse_from(views, i as int, config@),
        decreases args@.len() - i,
    {
        let arg = args[i].as_str();
        let has_value = i + 1 < args.len();
        assert(views[i as int] == arg@);
        if str_equals(arg, "--hard") {
            config.hard_mode = true;
            i += 1;
        } else if str_equals(arg, "--top") {
            if !has_value {
                return Err(String::from_str("--top expects a number"));
            }
            assert(views[i + 1] == args@[i + 1]@);
            match parse_usize(args[i + 1].as_str()) {
                None => {
                    return Err(String::from_str("--top expects a positive integer"));
                },
                Some(n) => {
                    if n == 0 {
                        return Err(String::from_str("--top must be >= 1"));
                    }
                    config.top_n = n;
                },
            }
            i += 2;
        } else if str_equals(arg, "--max-guesses") {
            if !has_value {
                return Err(String::from_str("--max-guesses expects a number"));
            }
            assert(views[i + 1] == args@[i + 1]@);
            match parse_usize(args[i + 1].as_str()) {
                None => {
                    return Err(String::from_str("--max-guesses expects a positive integer"));
                },
                Some(n) => {
                    if n == 0 {
                        return Err(String::from_str("--max-guesses must be >= 1"));
                    }
                    config.max_guesses = n;
                },
            }
            i += 2;
        } else if str_equals(arg, "--answer") {
            if !has_value {
                return Err(String::from_str("--answer expects a 5-letter word"));
            }
            assert(views[i + 1] == args@[i + 1]@);
            match Word::parse_user_input(args[i + 1].as_str()) {
                None => {
                    return Err(String::from_str("--answer expects a valid 5-letter word"));
                },
                Some(w) => {
                    config.simulate_answer = Some(w);
                },
            }
            i += 2;
        } else if str_equals(arg, "--start") {
            if !has_value {
                return Err(String::from_str("--start expects a 5-letter word"));
            }
            assert(views[i + 1] == args@[i + 1]@);
            match Word::parse_user_input(args[i + 1].as_str()) {
                None => {
                    return Err(String::from_str("--start expects a valid 5-letter word"));
                },
                Some(w) => {
                    config.simulate_start = Some(w);
                },
            }
            i += 2;
        } else if str_equals(arg, "--help") || str_equals(arg, "-h") {
            return Ok(CliAction::Help);
        } else {
            let mut message = String::from_str("Unknown argument: ");
            message.append(arg);
            message.append("\n\n");
            let help = help_text();
            message.append(help.as_str());
            return Err(message);
        }
    }
    Ok(CliAction::Run(config))
}


proof fn lemma_parse_shift(args: Seq<Seq<char>>, extra: Seq<Seq<char>>, j: int, cfg: ConfigView)
    requires
        0 <= j <= extra.len(),
    ensures
        parse_from(args + extra, args.len() + j, cfg) == parse_from(extra, j, cfg),
    decreases extra.len() - j,
{
    let all = args + extra;
    let n = args.len() as int;
    if j < extra.len() {
        assert(all[n + j] == extra[j]);
        if j + 1 < extra.len() {
            assert(all[n + j + 1] == extra[j + 1]);
            lemma_parse_shift(args, extra, j + 2, ConfigView { top_n: 0, ..cfg });
        }
        lemma_parse_shift(args, extra, j + 1, ConfigView { hard_mode: true, ..cfg });
        let a = extra[j];
        if j + 1 < extra.len() {
            match parsed_usize(extra[j + 1]) {
                Some(v) => {
                    lemma_parse_shift(args, extra, j + 2, ConfigView { top_n: v, ..cfg });
                    lemma_parse_shift(args, extra, j + 2, ConfigView { max_guesses: v, ..cfg });
                },
                None => {},
            }
            match typed_word(extra[j + 1]) {
                Some(w) => {
                    lemma_parse_shift(args, extra, j + 2, ConfigView { simulate_answer: Some(w), ..cfg });
                    lemma_parse_shift(args, extra, j + 2, ConfigView { simulate_start: Some(w), ..cfg });
                },
                None => {},
            }
        }
    }
}

/// Reading arguments one after another is reading them in one go: when `args`
/// read from `i` with options `cfg` give options `c`, then `args` followed by
/// `extra` give what `extra` gives when read with options `c`.
pub proof fn lemma_parse_concat(args: Seq<Seq<char>>, extra: Seq<Seq<char>>, i: int, cfg: ConfigView, c: ConfigView)
    requires
        0 <= i <= args.len(),
        parse_from(args, i, cfg) == ArgsOutcome::Run(c),
    ensures
        parse_from(args + extra, i, cfg) == parse_from(extra, 0, c),
    decreases args.len() - i,
{
    let all = args + extra;
    if i == args.len() {
        lemma_parse_shift(args, extra, 0, cfg);
    } else {
        assert(all[i] == args[i]);
        if i + 1 < args.len() {
            assert(all[i + 1] == args[i + 1]);
        }
        let a = args[i];
        if a == "--hard"@ {
            lemma_parse_concat(args, extra, i + 1, ConfigView { hard_mode: true, ..cfg }, c);
        } else if a == "--top"@ {
            let v = parsed_usize(args[i + 1])->0;
            lemma_parse_concat(args, extra, i + 2, ConfigView { top_n: v, ..cfg }, c);
        } else if a == "--max-guesses"@ {
            let v = parsed_usize(args[i + 1])->0;
            lemma_parse_concat(args, extra, i + 2, ConfigView { max_guesses: v, ..cfg }, c);
        } else if a == "--answer"@ {
            let w = typed_word(args[i + 1])->0;
            lemma_parse_concat(args, extra, i + 2, ConfigView { simulate_answer: Some(w), ..cfg }, c);
        } else if a == "--start"@ {
            let w = typed_word(args[i + 1])->0;
            lemma_parse_concat(args, extra, i + 2, ConfigView { simulate_start: Some(w), ..cfg }, c);
        }
    }
}

proof fn lemma_flag_names_distinct()
    ensures
        "--top"@ != "--hard"@,
        "--max-guesses"@ != "--hard"@,
        "--max-guesses"@ != "--top"@,
        "--answer"@ != "--hard"@,
        "--answer"@ != "--top"@,
        "--answer"@ != "--max-guesses"@,
        "--start"@ != "--hard"@,
        "--start"@ != "--top"@,
        "--start"@ != "--max-guesses"@,
        "--start"@ != "--answer"@,
{
    reveal_strlit("--hard");
    reveal_strlit("--top");
    reveal_strlit("--max-guesses");
    reveal_strlit("--answer");
    reveal_strlit("--start");
    assert("--top"@[2] != "--hard"@[2]);
    assert("--max-guesses"@[2] != "--hard"@[2]);
    assert("--max-guesses"@[2] != "--top"@[2]);
    assert("--answer"@[2] != "--hard"@[2]);
    assert("--answer"@[2] != "--top"@[2]);
    assert("--answer"@[2] != "--max-guesses"@[2]);
    assert("--start"@[2] != "--hard"@[2]);
    assert("--start"@[2] != "--top"@[2]);
    assert("--start"@[2] != "--max-guesses"@[2]);
    assert("--start"@[2] != "--answer"@[2]);
}

/// Appending `--hard` only switches hard mode on: every option read before
/// keeps its value, whatever the order.
pub proof fn lemma_hard_flag_only_sets_hard_mode(args: Seq<Seq<char>>, c: ConfigView)
    requires
        parse_from(args, 0, default_config()) == ArgsOutcome::Run(c),
    ensures
        parse_from(args + seq!["--hard"@], 0, default_config()) == ArgsOutcome::Run(ConfigView { hard_mode: true, ..c }),
{
    let extra = seq!["--hard"@];
    lemma_parse_concat(args, extra, 0, default_config(), c);
    assert(parse_from(extra, 1, ConfigView { hard_mode: true, ..c }) == ArgsOutcome::Run(
        ConfigView { hard_mode: true, ..c },
    ));
}

/// Appending `--top N` with a positive number only changes the number of
/// suggestions; `--max-guesses N` only the guess limit.
pub proof fn lemma_number_flags_only_set_their_option(args: Seq<Seq<char>>, c: ConfigView, n: Seq<char>, v: usize)
    requires
        parse_from(args, 0, default_config()) == ArgsOutcome::Run(c),
        parsed_usize(n) == Some(v),
        v > 0,
    ensures
        parse_from(args + seq!["--top"@, n], 0, default_config()) == ArgsOutcome::Run(ConfigView { top_n: v, ..c }),
        parse_from(args + seq!["--max-guesses"@, n], 0, default_config()) == ArgsOutcome::Run(
            ConfigView { max_guesses: v, ..c },
        ),
{
    lemma_flag_names_distinct();
    let e1 = seq!["--top"@, n];
    let e2 = seq!["--max-guesses"@, n];
    lemma_parse_concat(args, e1, 0, default_config(), c);
    lemma_parse_concat(args, e2, 0, default_config(), c);
    assert(parse_from(e1, 2, ConfigView { top_n: v, ..c }) == ArgsOutcome::Run(ConfigView { top_n: v, ..c }));
    assert(parse_from(e2, 2, ConfigView { max_guesses: v, ..c }) == ArgsOutcome::Run(
        ConfigView { max_guesses: v, ..c },
    ));
}

/// Appending `--answer WORD` or `--start WORD` with a valid word only sets the
/// simulated answer or the starting word.
pub proof fn lemma_word_flags_only_set_their_option(args: Seq<Seq<char>>, c: ConfigView, t: Seq<char>, w: Seq<u8>)
    requires
        parse_from(args, 0, default_config()) == ArgsOutcome::Run(c),
        typed_word(t) == Some(w),
    ensures
        parse_from(args + seq!["--answer"@, t], 0, default_config()) == ArgsOutcome::Run(
            ConfigView { simulate_answer: Some(w), ..c },
        ),
        parse_from(args + seq!["--start"@, t], 0, default_config()) == ArgsOutcome::Run(
            ConfigView { simulate_start: Some(w), ..c },
        ),
{
    lemma_flag_names_distinct();
    let e1 = seq!["--answer"@, t];
    let e2 = seq!["--start"@, t];
    lemma_parse_concat(args, e1, 0, default_config(), c);
    lemma_parse_concat(args, e2, 0, default_config(), c);
    assert(parse_from(e1, 2, ConfigView { simulate_answer: Some(w), ..c }) == ArgsOutcome::Run(
        ConfigView { simulate_answer: Some(w), ..c },
    ));
    assert(parse_from(e2, 2, ConfigView { simulate_start: Some(w), ..c }) == ArgsOutcome::Run(
        ConfigView { simulate_start: Some(w), ..c },
    ));
}

}
