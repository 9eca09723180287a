use wordle::word::Word;

#[test]
fn parses_valid_words() {
    assert!(Word::parse_upper_ascii("CRANE").is_some());
    assert!(Word::parse_upper_ascii("crane").is_none());
    assert!(Word::parse_user_input("crane").is_some());
}

#[test]
fn rejects_invalid_words() {
    assert!(Word::parse_upper_ascii("ABCD").is_none());
    assert!(Word::parse_upper_ascii("ABCD1").is_none());
}
