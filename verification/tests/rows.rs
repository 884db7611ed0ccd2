use wordle_stuff::api::parse_match;
use wordle_stuff::error::SolverError;
use wordle_stuff::parse::{match_to_string, parse_match_input, parse_match_text, MatchInput};

#[test]
fn parses_letter_rows() {
    assert_eq!(parse_match("BYGbg").unwrap(), vec![0, 1, 2, 0, 2]);
    assert_eq!(parse_match("  yyyyy \n").unwrap(), vec![1, 1, 1, 1, 1]);
}

#[test]
fn parses_emoji_rows() {
    assert_eq!(
        parse_match("\u{2b1b}\u{1f7e8}\u{1f7e9}\u{2b1b}\u{1f7e9}").unwrap(),
        vec![0, 1, 2, 0, 2]
    );
}

#[test]
fn rejects_unknown_tiles() {
    match parse_match("BYGX") {
        Err(SolverError::UnknownTile { tile, text }) => {
            assert_eq!(tile, 'X');
            assert_eq!(text, "BYGX");
        }
        other => panic!("unexpected {:?}", other),
    }
}

#[test]
fn rejects_wrong_lengths() {
    match parse_match("BYG") {
        Err(SolverError::MatchLength { text }) => assert_eq!(text, "BYG"),
        other => panic!("unexpected {:?}", other),
    }
    match parse_match("BYGBGB") {
        Err(SolverError::MatchLength { .. }) => {}
        other => panic!("unexpected {:?}", other),
    }
    // a bad tile after five good ones is a length error
    match parse_match("BYGBGX") {
        Err(SolverError::MatchLength { .. }) => {}
        other => panic!("unexpected {:?}", other),
    }
}

#[test]
fn row_error_messages() {
    let e = parse_match("BYGX").unwrap_err();
    assert_eq!(e.message(), "unknown tile 'X' in \"BYGX\"");
    let e = parse_match("BYG").unwrap_err();
    assert_eq!(e.message(), "expected five tiles, got \"BYG\"");
}

#[test]
fn parses_tile_values() {
    assert_eq!(parse_match_input(MatchInput::Tiles(vec![0, 1, 2, 0, 1])).unwrap(), [0, 1, 2, 0, 1]);
    match parse_match_input(MatchInput::Tiles(vec![0, 1, 3, 0, 1])) {
        Err(SolverError::TileValues { tiles }) => assert_eq!(tiles, vec![0, 1, 3, 0, 1]),
        other => panic!("unexpected {:?}", other),
    }
    let e = parse_match_input(MatchInput::Tiles(vec![0, 1])).unwrap_err();
    assert_eq!(e.message(), "expected five tile values in 0..=2, got [0, 1]");
    assert_eq!(parse_match_input(MatchInput::Text("GGGGG".to_string())).unwrap(), [2; 5]);
}

#[test]
fn row_text_round_trip() {
    let row = [0, 1, 2, 1, 0];
    let text = match_to_string(&row);
    assert_eq!(text, "BYGYB");
    assert_eq!(parse_match_text(&text).unwrap(), row);
}

#[test]
fn tile_value_messages_list_the_bytes() {
    let e = SolverError::TileValues { tiles: vec![200, 10, 7, 0, 255, 100] };
    assert_eq!(e.message(), "expected five tile values in 0..=2, got [200, 10, 7, 0, 255, 100]");
    let e = SolverError::TileValues { tiles: vec![] };
    assert_eq!(e.message(), "expected five tile values in 0..=2, got []");
    assert_eq!(e.message(), format!("expected five tile values in 0..=2, got {:?}", Vec::<u8>::new()));
}
