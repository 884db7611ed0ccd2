use wordle_stuff::api::{black_tile, green_tile, score_word, yellow_tile};
use wordle_stuff::error::SolverError;
use wordle_stuff::parse::{match_to_string, parse_word, word_to_string};
use wordle_stuff::score::{score_code, score_match};
use wordle_stuff::word::{count_letters, match_code, word_key};

fn score(guess: &str, solution: &str) -> String {
    score_word(guess, solution).unwrap()
}

#[test]
fn scores_basic_wordle_rows() {
    assert_eq!(score("party", "tardy"), "BGGYG");
}

#[test]
fn scores_duplicate_letters_like_wordle() {
    assert_eq!(score("allee", "belle"), "BYGYG");
}

#[test]
fn scores_more_rows() {
    assert_eq!(score("eerie", "there"), "YBYBG");
    assert_eq!(score("speed", "abide"), "BBYBY");
    assert_eq!(score("tardy", "party"), "YGGBG");
    assert_eq!(score("belle", "allee"), "BYGYG");
}

#[test]
fn word_scored_against_itself_is_all_green() {
    assert_eq!(score("party", "party"), "GGGGG");
    assert_eq!(score("allee", "allee"), "GGGGG");
}

#[test]
fn absent_letters_score_black() {
    assert_eq!(score("zzzzz", "party"), "BBBBB");
    assert_eq!(score("fjord", "belle"), "BBBBB");
}

#[test]
fn repeated_letters_reveal_the_common_count() {
    // "eerie" holds three e; "there" two: exactly two e tiles are not black.
    let row = score("eerie", "there");
    let revealed = "eerie"
        .chars()
        .zip(row.chars())
        .filter(|(c, t)| *c == 'e' && *t != 'B')
        .count();
    assert_eq!(revealed, 2);
}

#[test]
fn score_word_trims_and_accepts_upper_case() {
    assert_eq!(score(" PARTY\n", "Tardy"), "BGGYG");
}

#[test]
fn score_word_reports_bad_guess_first() {
    match score_word("abc", "ab1de") {
        Err(SolverError::WordLength { word }) => assert_eq!(word, "abc"),
        other => panic!("unexpected {:?}", other),
    }
    match score_word("party", "ab1de") {
        Err(SolverError::WordNotLowercase { word }) => assert_eq!(word, "ab1de"),
        other => panic!("unexpected {:?}", other),
    }
}

#[test]
fn non_ascii_words_are_refused_by_byte_length() {
    // "é" takes two bytes: five characters make six bytes.
    match parse_word("caféx") {
        Err(SolverError::WordLength { .. }) => {}
        other => panic!("unexpected {:?}", other),
    }
    // four characters, five bytes: the length fits, the letters do not.
    match parse_word("café") {
        Err(SolverError::WordNotLowercase { .. }) => {}
        other => panic!("unexpected {:?}", other),
    }
}

#[test]
fn error_messages_quote_the_input() {
    let e = score_word("abc", "party").unwrap_err();
    assert_eq!(e.message(), "expected a five-letter word, got \"abc\"");
    let e = score_word("ab1de", "party").unwrap_err();
    assert_eq!(e.message(), "word contains a non-lowercase ASCII letter: \"ab1de\"");
}

#[test]
fn tile_values() {
    assert_eq!(black_tile(), 0);
    assert_eq!(yellow_tile(), 1);
    assert_eq!(green_tile(), 2);
}

#[test]
fn match_codes_are_base_three() {
    assert_eq!(match_code(&[0, 0, 0, 0, 0]), 0);
    assert_eq!(match_code(&[2, 2, 2, 2, 2]), 242);
    assert_eq!(match_code(&[1, 0, 0, 0, 2]), 83);
}

#[test]
fn word_keys_are_base_twenty_six() {
    assert_eq!(word_key(&[0, 0, 0, 0, 0]), 0);
    assert_eq!(word_key(&[0, 0, 0, 0, 1]), 1);
    assert_eq!(word_key(&[1, 0, 0, 0, 0]), 456976);
    assert_eq!(word_key(&[25, 25, 25, 25, 25]), 11881375);
}

#[test]
fn score_code_matches_score_row() {
    let g = parse_word("party").unwrap();
    let s = parse_word("tardy").unwrap();
    let counts = count_letters(&s);
    let row = score_match(&g, &s, &counts);
    assert_eq!(row, [0, 2, 2, 1, 2]);
    assert_eq!(score_code(&g, &s, &counts), match_code(&row));
    assert_eq!(match_to_string(&row), "BGGYG");
}

#[test]
fn word_text_round_trip() {
    let w = parse_word("fjord").unwrap();
    assert_eq!(w, [5, 9, 14, 17, 3]);
    assert_eq!(word_to_string(&w), "fjord");
    assert_eq!(parse_word(&word_to_string(&w)).unwrap(), w);
}

#[test]
fn letter_counts() {
    let w = parse_word("allee").unwrap();
    let c = count_letters(&w);
    assert_eq!(c[0], 1);
    assert_eq!(c[11], 2);
    assert_eq!(c[4], 2);
    assert_eq!(c.iter().map(|x| *x as u32).sum::<u32>(), 5);
}
