use wordle::word::Word;

fn w(raw: &str) -> Word {
    Word::parse_upper_ascii(raw).expect("word literal must be valid")
}

#[test]
fn user_input_is_trimmed_and_upper_cased() {
    assert_eq!(Word::parse_user_input("  crane\t\n"), Some(w("CRANE")));
    assert_eq!(Word::parse_user_input("CrAnE"), Some(w("CRANE")));
    assert_eq!(Word::parse_user_input("\u{3000}slate\u{a0}"), Some(w("SLATE")));
}

#[test]
fn user_input_rejects_inner_space_and_digits() {
    assert!(Word::parse_user_input("cr ane").is_none());
    assert!(Word::parse_user_input("cran3").is_none());
    assert!(Word::parse_user_input("cranes").is_none());
    assert!(Word::parse_user_input("").is_none());
}

#[test]
fn upper_ascii_rejects_non_ascii_letters() {
    assert!(Word::parse_upper_ascii("CRÄNE").is_none());
    assert!(Word::parse_upper_ascii("ÄBCD").is_none());
    assert!(Word::parse_upper_ascii(" CRANE").is_none());
}

#[test]
fn word_text_and_letters() {
    let word = w("CRANE");
    assert_eq!(word.to_string(), "CRANE");
    assert_eq!(word.letters(), *b"CRANE");
}

#[test]
fn keys_follow_alphabetical_order() {
    assert!(w("ABACK").key() < w("ABASE").key());
    assert!(w("ZONAL").key() > w("ABACK").key());
    assert_eq!(w("CRANE").key(), w("CRANE").key());
    assert_eq!(w("AAAAA").key(), 0x41_41_41_41_41);
    let mut words = vec![w("ZONAL"), w("ABASE"), w("ABACK"), w("MOTTO")];
    let mut by_key = words.clone();
    words.sort();
    by_key.sort_by_key(|x| x.key());
    assert_eq!(words, by_key);
}

#[test]
fn zero_width_space_is_not_trimmed() {
    assert!(Word::parse_user_input("crane\u{200b}").is_none());
    assert_eq!(Word::parse_user_input("\u{2028}crane\u{85}"), Word::parse_upper_ascii("CRANE"));
}
