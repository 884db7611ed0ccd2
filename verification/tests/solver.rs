use wordle_stuff::api::{
    flatten_matches, games_from_trials, generate_trials_native, hard_mode_match_exists,
    hard_mode_match_exists_for_trials, hard_mode_match_exists_with_candidates, loaded_word_count,
    match_exists, score_word, word_count,
};
use wordle_stuff::dictionary::{word_index, Dictionary};
use wordle_stuff::error::SolverError;
use wordle_stuff::hard_mode::{
    hard_mode_candidates, hard_mode_game_possible, hard_mode_guess_idxs, initial_hard_mode_state,
    update_hard_mode_state, GuessCache,
};
use wordle_stuff::parse::parse_word;
use wordle_stuff::prefilter::{independent_match_exists, possible_indices, prefilter_row};
use wordle_stuff::progress::{hard_mode_step, prefilter_step, Progress, Stage};
use wordle_stuff::trial::{run_trial, TrialGame, TrialGuess, XorShift64};
use wordle_stuff::word::Game;

const WORDS: &str = "party\ntardy\nbelle\nallee\nspeed\nabide\nthere\neerie\nfjord\nwords\n";

fn dict() -> Dictionary {
    Dictionary::load(WORDS)
}

fn row(text: &str) -> [u8; 5] {
    wordle_stuff::parse::parse_match_text(text).unwrap()
}

fn game(rows: &[&str]) -> Game {
    Game { matches: rows.iter().map(|r| row(r)).collect() }
}

#[test]
fn loads_word_lists() {
    let d = Dictionary::load("  Party \r\n\ntardy\n\n   \nBELLE");
    assert_eq!(word_count(&d), 3);
    assert_eq!(loaded_word_count(&d), 3);
    assert_eq!(d.word(0), parse_word("party").unwrap());
    assert_eq!(d.word(2), parse_word("belle").unwrap());
    assert_eq!(word_count(&Dictionary::load("")), 0);
}

#[test]
fn refuses_bad_word_lists() {
    match Dictionary::try_load("party\npar1y\ntoolong\n") {
        Err(SolverError::WordNotLowercase { word }) => assert_eq!(word, "par1y"),
        other => panic!("unexpected {:?}", other.map(|d| d.len())),
    }
    match Dictionary::try_load("party\n  toolong  \n") {
        Err(SolverError::WordLength { word }) => assert_eq!(word, "toolong"),
        other => panic!("unexpected {:?}", other.map(|d| d.len())),
    }
}

#[test]
fn word_index_finds_the_last_copy() {
    let d = Dictionary::load("party\ntardy\nparty\n");
    assert_eq!(word_index(&d, "party").unwrap(), 2);
    assert_eq!(word_index(&d, " TARDY").unwrap(), 1);
    match word_index(&d, "fjord") {
        Err(SolverError::UnknownWord { word }) => assert_eq!(word, "fjord"),
        other => panic!("unexpected {:?}", other),
    }
    let e = word_index(&d, "fjord").unwrap_err();
    assert_eq!(e.message(), "\"fjord\" is not in words.txt");
    match word_index(&d, "xy") {
        Err(SolverError::WordLength { .. }) => {}
        other => panic!("unexpected {:?}", other),
    }
}

#[test]
fn independent_pass_filters_rows() {
    let d = dict();
    assert_eq!(match_exists(&d, &vec![game(&["BGGYG", "GGGGG"])]), vec!["tardy"]);
    assert_eq!(match_exists(&d, &vec![game(&["BBYBY"])]), vec!["abide"]);
    assert_eq!(match_exists(&d, &vec![game(&["YBBBB"]), game(&["GGGGG"])]), vec!["party", "tardy", "speed"]);
    assert_eq!(match_exists(&d, &vec![game(&["BBYBG", "BGBBG"])]), vec!["belle", "eerie"]);
}

#[test]
fn hard_mode_pass_uses_the_order_of_rows() {
    let d = dict();
    // eerie explains each row on its own, but not as one hard-mode game.
    assert_eq!(hard_mode_match_exists(&d, &vec![game(&["BBYBG", "BGBBG"])]), vec!["belle"]);
    assert_eq!(hard_mode_match_exists(&d, &vec![game(&["BGGYG", "GGGGG"])]), vec!["tardy"]);
    assert_eq!(hard_mode_match_exists(&d, &vec![game(&["YBBBB"]), game(&["GGGGG"])]), vec!["party", "tardy", "speed"]);
    assert_eq!(hard_mode_match_exists(&d, &vec![]), word_list());
}

fn word_list() -> Vec<String> {
    WORDS.lines().map(|w| w.to_string()).collect()
}

#[test]
fn hard_mode_with_named_candidates() {
    let d = dict();
    let games = vec![game(&["BBYBG", "BGBBG"])];
    let cands = vec!["eerie".to_string(), "belle".to_string(), "party".to_string()];
    assert_eq!(hard_mode_match_exists_with_candidates(&d, &games, &cands).unwrap(), vec!["belle"]);
    let bad = vec!["belle".to_string(), "zzzzz".to_string(), "ab".to_string()];
    match hard_mode_match_exists_with_candidates(&d, &games, &bad) {
        Err(SolverError::UnknownWord { word }) => assert_eq!(word, "zzzzz"),
        other => panic!("unexpected {:?}", other),
    }
}

#[test]
fn step_functions_agree_with_the_whole_pass() {
    let d = dict();
    let games = vec![game(&["BBYBG", "BGBBG"])];
    let rows = flatten_matches(&games);
    let mut possible = vec![true; d.len()];
    for r in &rows {
        prefilter_row(&d, &mut possible, r);
    }
    let idxs = possible_indices(&possible);
    assert_eq!(idxs, independent_match_exists(&d, &rows));
    assert_eq!(idxs, vec![2, 7]);
    assert_eq!(hard_mode_candidates(&d, &games, &idxs), vec![2]);
    let mut cache = GuessCache::new();
    assert!(hard_mode_game_possible(&d, 2, &games[0], &mut cache));
    assert!(!hard_mode_game_possible(&d, 7, &games[0], &mut cache));
}

#[test]
fn hard_mode_state_rules_out_guesses() {
    let d = dict();
    let s = initial_hard_mode_state();
    assert_eq!(hard_mode_guess_idxs(&d, &s), (0..10).collect::<Vec<usize>>());
    let guess = parse_word("party").unwrap();
    let next = update_hard_mode_state(&s, &guess, &row("BGGYG"));
    assert_eq!(next.greens, [-1, 0, 17, -1, 24]);
    assert_eq!(next.min_counts[19], 1);
    assert!(next.forbidden[19][3]);
    // words with a?r?y and a t not in the fourth place: only tardy
    assert_eq!(hard_mode_guess_idxs(&d, &next), vec![1]);
}

#[test]
fn xorshift_steps() {
    let mut rng = XorShift64::new(1);
    assert_eq!(rng.next_u64(), 1082269761);
    let mut rng = XorShift64::new(1);
    assert_eq!(rng.gen_range(10), 1);
    let mut zero = XorShift64::new(0);
    let mut fixed = XorShift64::new(0x9e37_79b9_7f4a_7c15);
    assert_eq!(zero.next_u64(), fixed.next_u64());
}

#[test]
fn generates_known_trials() {
    let d = dict();
    let trials = generate_trials_native(&d, "Party", 3, 1, true).unwrap();
    assert_eq!(trials.len(), 3);
    let seen: Vec<Vec<(String, String, usize)>> = trials
        .iter()
        .map(|t| t.guesses.iter().map(|g| (g.word.clone(), g.match_text.clone(), g.remaining)).collect())
        .collect();
    let expect = |v: &[(&str, &str, usize)]| -> Vec<(String, String, usize)> {
        v.iter().map(|(a, b, c)| (a.to_string(), b.to_string(), *c)).collect()
    };
    assert_eq!(seen[0], expect(&[("tardy", "YGGBG", 1), ("party", "GGGGG", 1)]));
    assert_eq!(seen[1], expect(&[("abide", "YBBBB", 1), ("party", "GGGGG", 1)]));
    assert_eq!(seen[2], expect(&[("eerie", "BBGBB", 3), ("words", "BBGBB", 1), ("party", "GGGGG", 1)]));
    assert_eq!(trials[0].answer, "party");

    let easy = generate_trials_native(&d, "fjord", 2, 1, false).unwrap();
    assert_eq!(easy[0].guesses[0].word, "tardy");
    assert_eq!(easy[0].guesses[0].match_text, "BBYYB");
    assert_eq!(easy[1].guesses[0].word, "abide");
    assert_eq!(easy[1].guesses.last().unwrap().word, "fjord");
}

#[test]
fn trial_rows_are_scores_of_their_guesses() {
    let d = dict();
    for seed in 0..20u64 {
        let trials = generate_trials_native(&d, "speed", 2, seed, seed % 2 == 0).unwrap();
        for t in &trials {
            assert!(!t.guesses.is_empty() && t.guesses.len() <= 6);
            for g in &t.guesses {
                assert_eq!(score_word(&g.word, "speed").unwrap(), g.match_text);
                assert!(g.remaining >= 1);
            }
            assert_eq!(t.guesses.last().unwrap().word, "speed");
        }
    }
}

#[test]
fn generated_answer_survives_hard_mode() {
    let d = dict();
    for seed in 0..20u64 {
        for answer in ["party", "eerie", "fjord"] {
            let trials = generate_trials_native(&d, answer, 3, seed, true).unwrap();
            let possible = hard_mode_match_exists_for_trials(&d, &trials).unwrap();
            assert!(possible.iter().any(|w| w == answer));
            let games = games_from_trials(&trials).unwrap();
            assert_eq!(games.len(), 3);
        }
    }
}

#[test]
fn trial_errors() {
    let d = dict();
    match generate_trials_native(&d, "zzzzz", 1, 1, true) {
        Err(SolverError::UnknownWord { word }) => assert_eq!(word, "zzzzz"),
        _ => panic!("expected an unknown word"),
    }
    match generate_trials_native(&d, "zz", 1, 1, true) {
        Err(SolverError::WordLength { .. }) => {}
        _ => panic!("expected a length error"),
    }
}

#[test]
fn run_trial_advances_the_generator() {
    let d = dict();
    let mut rng = XorShift64::new(1);
    let t = run_trial(&d, 0, "PARTY", &mut rng, true);
    assert_eq!(t.answer, "party");
    assert_eq!(t.guesses.len(), 2);
    let mut other = XorShift64::new(1);
    other.next_u64();
    assert_eq!(rng.next_u64(), other.next_u64());
}

#[test]
fn prefilter_does_not_change_the_hard_mode_result() {
    let d = dict();
    for rows in [vec!["BBYBG", "BGBBG"], vec!["YBBBB", "BBGBB"], vec!["BBBBB"], vec!["BGGYG", "GGGGG"]] {
        let games = vec![game(&rows)];
        let all: Vec<usize> = (0..d.len()).collect();
        let direct = hard_mode_candidates(&d, &games, &all);
        let names: Vec<String> = direct.iter().map(|i| word_list()[*i].clone()).collect();
        assert_eq!(hard_mode_match_exists(&d, &games), names);
    }
}

#[test]
fn generated_answer_survives_the_independent_pass() {
    let d = dict();
    for seed in 0..20u64 {
        let trials = generate_trials_native(&d, "abide", 3, seed, false).unwrap();
        let games = games_from_trials(&trials).unwrap();
        assert!(match_exists(&d, &games).iter().any(|w| w == "abide"));
    }
}

#[test]
fn a_word_agreeing_with_the_rows_stays_legal() {
    let d = dict();
    let answer = parse_word("there").unwrap();
    let mut state = initial_hard_mode_state();
    for guess in ["eerie", "speed", "abide"] {
        let g = parse_word(guess).unwrap();
        let counts = wordle_stuff::word::count_letters(&answer);
        let row = wordle_stuff::score::score_match(&g, &answer, &counts);
        state = update_hard_mode_state(&state, &g, &row);
        assert!(hard_mode_guess_idxs(&d, &state).contains(&6));
    }
}

#[test]
fn checked_loading_accepts_word_lists() {
    let d = Dictionary::try_load(WORDS).unwrap();
    assert_eq!(d.len(), 10);
    assert_eq!(word_index(&d, "fjord").unwrap(), 8);
    assert_eq!(Dictionary::try_load("\n \n").unwrap().len(), 0);
}

fn same_report(a: Progress, stage: Stage, current: usize, total: usize, remaining: usize) -> bool {
    let same_stage = matches!((a.stage, stage), (Stage::Prefilter, Stage::Prefilter) | (Stage::HardMode, Stage::HardMode));
    same_stage && a.current == current && a.total == total && a.remaining == remaining
}

#[test]
fn prefilter_steps_report_and_stop() {
    let d = dict();
    let rows = flatten_matches(&vec![game(&["BBYBG", "BGBBG", "GGGGG"])]);
    let mut possible = vec![true; d.len()];
    let (first, stop) = prefilter_step(&d, &mut possible, &rows, 0);
    assert!(same_report(first, Stage::Prefilter, 1, 3, count_true(&possible)));
    assert!(!stop);
    let (second, stop) = prefilter_step(&d, &mut possible, &rows, 1);
    assert!(same_report(second, Stage::Prefilter, 2, 3, 2));
    assert!(!stop);
    assert_eq!(possible_indices(&possible), vec![2, 7]);

    let rows = flatten_matches(&vec![game(&["GGGGB"])]);
    let mut possible = vec![true; d.len()];
    let (report, stop) = prefilter_step(&d, &mut possible, &rows, 0);
    assert!(same_report(report, Stage::Prefilter, 1, 1, 0));
    assert!(stop);
}

fn count_true(v: &[bool]) -> usize {
    v.iter().filter(|b| **b).count()
}

#[test]
fn hard_mode_steps_keep_survivors_and_report_when_due() {
    let d = dict();
    let games = vec![game(&["BBYBG", "BGBBG"])];
    let candidates = vec![2, 7];
    let mut survivors = Vec::new();
    let mut cache = GuessCache::new();
    let first = hard_mode_step(&d, &games, &candidates, 0, &mut survivors, &mut cache).unwrap();
    assert!(same_report(first, Stage::HardMode, 1, 2, 1));
    assert_eq!(survivors, vec![2]);
    let last = hard_mode_step(&d, &games, &candidates, 1, &mut survivors, &mut cache).unwrap();
    assert!(same_report(last, Stage::HardMode, 2, 2, 1));
    assert_eq!(survivors, vec![2]);

    let many: Vec<usize> = vec![0; 30];
    let mut survivors = Vec::new();
    assert!(hard_mode_step(&d, &vec![], &many, 1, &mut survivors, &mut cache).is_none());
    assert_eq!(survivors, vec![0]);
    assert!(hard_mode_step(&d, &vec![], &many, 25, &mut survivors, &mut cache).is_some());
}

fn shown(trials: &[TrialGame]) -> Vec<(String, Vec<(String, String, usize)>)> {
    trials
        .iter()
        .map(|t| {
            let guesses = t.guesses.iter().map(|g| (g.word.clone(), g.match_text.clone(), g.remaining)).collect();
            (t.answer.clone(), guesses)
        })
        .collect()
}

#[test]
fn generated_trials_come_in_sequence() {
    let d = dict();
    let five = generate_trials_native(&d, "eerie", 5, 7, true).unwrap();
    let three = generate_trials_native(&d, "eerie", 3, 7, true).unwrap();
    assert_eq!(shown(&five[..3]), shown(&three));
    let again = generate_trials_native(&d, "eerie", 5, 7, true).unwrap();
    assert_eq!(shown(&five), shown(&again));
}

#[test]
fn zero_seed_is_the_fixed_seed() {
    let d = dict();
    let zero = generate_trials_native(&d, "fjord", 4, 0, true).unwrap();
    let fixed = generate_trials_native(&d, "fjord", 4, 0x9e37_79b9_7f4a_7c15, true).unwrap();
    assert_eq!(shown(&zero), shown(&fixed));
}

#[test]
fn trials_solver_sees_only_the_rows() {
    let d = dict();
    let trials = generate_trials_native(&d, "belle", 3, 5, true).unwrap();
    let masked: Vec<TrialGame> = trials
        .iter()
        .map(|t| TrialGame {
            answer: "zzzzz".to_string(),
            guesses: t
                .guesses
                .iter()
                .map(|g| TrialGuess { word: "?????".to_string(), match_text: g.match_text.clone(), remaining: 0 })
                .collect(),
        })
        .collect();
    assert_eq!(
        hard_mode_match_exists_for_trials(&d, &trials).unwrap(),
        hard_mode_match_exists_for_trials(&d, &masked).unwrap()
    );
}

#[test]
fn cache_keeps_what_it_learned() {
    let d = dict();
    let games = vec![game(&["BBYBG", "BGBBG"])];
    let mut cache = GuessCache::new();
    let first = hard_mode_game_possible(&d, 2, &games[0], &mut cache);
    let second = hard_mode_game_possible(&d, 2, &games[0], &mut cache);
    let mut fresh = GuessCache::new();
    assert_eq!(first, second);
    assert_eq!(second, hard_mode_game_possible(&d, 2, &games[0], &mut fresh));
}
