use wordle::cli::parse_usize;
use wordle::text::{is_whitespace, split_upper_tokens, trim_range};

#[test]
fn white_space_agrees_with_std_for_every_char() {
    for code in 0..=0x10FFFFu32 {
        if let Some(c) = char::from_u32(code) {
            assert_eq!(is_whitespace(c), c.is_whitespace(), "character U+{code:04X}");
        }
    }
}

#[test]
fn usize_parse_agrees_with_std() {
    for text in ["0", "7", "+8", "00012", "", "+", "-", "-0", "1x", " 1", "18446744073709551615", "18446744073709551616", "99999999999999999999999"] {
        assert_eq!(parse_usize(text), text.parse::<usize>().ok(), "text {text:?}");
    }
}

#[test]
fn tokens_are_split_and_upper_cased() {
    assert_eq!(split_upper_tokens("  crane\tbyBBb \n"), vec!["CRANE".to_string(), "BYBBB".to_string()]);
    assert!(split_upper_tokens(" \u{3000} ").is_empty());
    assert_eq!(split_upper_tokens("a\u{200b}b"), vec!["A\u{200b}B".to_string()]);
}

#[test]
fn trim_range_bounds() {
    let chars: Vec<char> = " \u{a0}ab c\n".chars().collect();
    assert_eq!(trim_range(&chars, 0, chars.len()), (2, 6));
    assert_eq!(trim_range(&chars, 0, 1), (1, 1));
}
