use wordle::word::Word;
use wordle::word_lists::{extract_word_set, load_word_lists};

fn w(raw: &str) -> Word {
    Word::parse_upper_ascii(raw).expect("word literal must be valid")
}

#[test]
fn extract_sorts_and_deduplicates() {
    let words = extract_word_set("ZONAL\nABACK\r\n  CRANE\t\nABACK\n");
    assert_eq!(words, vec![w("ABACK"), w("CRANE"), w("ZONAL")]);
}

#[test]
fn extract_skips_lines_that_are_not_words() {
    let words = extract_word_set("crane\nCRANES\nCRA NE\n\nSLATE");
    assert_eq!(words, vec![w("SLATE")]);
    assert!(extract_word_set("").is_empty());
}

#[test]
fn answers_are_added_to_guesses() {
    let lists = load_word_lists("CRANE\nABACK\n", "ZONAL\nCRANE\n");
    assert_eq!(lists.answers, vec![w("ABACK"), w("CRANE")]);
    assert_eq!(lists.guesses, vec![w("ABACK"), w("CRANE"), w("ZONAL")]);
}
