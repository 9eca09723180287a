use wordle::word_lists::load_word_lists;

const ANSWERS_TEXT: &str = "aback\nABACK\nALARM\nBEARD\r\nCRANE\n";
const GUESSES_TEXT: &str = "AAHED\nAALII\n  ZONAL  \nnot a word\n\nSTOMP";

#[test]
fn loads_non_empty_lists() {
    let lists = load_word_lists(ANSWERS_TEXT, GUESSES_TEXT);
    assert!(!lists.answers.is_empty());
    assert!(!lists.guesses.is_empty());
    assert!(lists.guesses.len() >= lists.answers.len());
}
