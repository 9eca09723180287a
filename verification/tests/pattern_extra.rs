use wordle::pattern::{Pattern, NUM_PATTERNS, SOLVED_PATTERN};

#[test]
fn pattern_error_messages() {
    assert_eq!(
        Pattern::parse("GGGG").unwrap_err(),
        "Pattern must be exactly 5 chars using B/Y/G."
    );
    assert_eq!(
        Pattern::parse("GGGGGG").unwrap_err(),
        "Pattern must be exactly 5 chars using B/Y/G."
    );
    assert_eq!(
        Pattern::parse("GGGGZ").unwrap_err(),
        "Pattern can only contain B, Y, or G."
    );
    // five bytes but only four characters: the length check passes on bytes
    assert_eq!(
        Pattern::parse("GGGé").unwrap_err(),
        "Pattern can only contain B, Y, or G."
    );
    assert_eq!(
        Pattern::parse("GGGGGé").unwrap_err(),
        "Pattern must be exactly 5 chars using B/Y/G."
    );
}

#[test]
fn pattern_codes_are_base_three() {
    assert_eq!(Pattern::parse("BBBBB").unwrap().index(), 0);
    assert_eq!(Pattern::parse("YBBBB").unwrap().index(), 1);
    assert_eq!(Pattern::parse("GBBBB").unwrap().index(), 2);
    assert_eq!(Pattern::parse("BYBBB").unwrap().index(), 3);
    assert_eq!(Pattern::parse("BBBBY").unwrap().index(), 81);
    assert_eq!(Pattern::parse("GGGGG").unwrap().index(), SOLVED_PATTERN as usize);
    assert_eq!(Pattern::parse("gyBbY").unwrap().index(), 2 + 3 + 81);
}

#[test]
fn marks_round_trip_for_every_pattern() {
    let symbols = ['B', 'Y', 'G'];
    let mut seen = vec![false; NUM_PATTERNS];
    for code in 0..NUM_PATTERNS {
        let mut text = String::new();
        let mut v = code;
        for _ in 0..5 {
            text.push(symbols[v % 3]);
            v /= 3;
        }
        let pattern = Pattern::parse(&text).unwrap();
        assert_eq!(pattern.index(), code);
        assert_eq!(pattern.to_string(), text);
        assert_eq!(Pattern::from_marks(pattern.marks()), pattern);
        assert_eq!(pattern.is_solved(), code == SOLVED_PATTERN as usize);
        seen[code] = true;
    }
    assert!(seen.iter().all(|s| *s));
}

#[test]
fn marks_are_the_digits() {
    let pattern = Pattern::parse("GYBYB").unwrap();
    assert_eq!(pattern.marks(), [2, 1, 0, 1, 0]);
    assert_eq!(Pattern::from_marks([2, 1, 0, 1, 0]), pattern);
}

#[test]
fn lower_case_text_comes_back_upper_case() {
    assert_eq!(Pattern::parse("gybyb").unwrap().to_string(), "GYBYB");
}
