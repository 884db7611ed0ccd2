//! The solver's entry points: scoring words, reading rows, filtering the word
//! list by hidden games, and generating synthetic games.
use vstd::prelude::*;

use crate::dictionary::{is_last_spelled, lookup_error, word_index, Dictionary};
use crate::error::SolverError;
use crate::hard_mode::{hard_mode_candidates, solution_fits};
use crate::parse::{
    is_word_text, match_text, match_to_string, parse_match_text, parse_word, spells, tile_value,
    tiles_upto, word_error, word_text, word_to_string,
};
use crate::prefilter::{fits_rows, independent_match_exists, index_range};
use crate::score::{score_match, score_spec};
use crate::text::{ascii_lower, trim};
use crate::trial::{
    describes_guesses, run_trial, trial_run, TrialGame, XorShift64, MAX_GUESSES, ZERO_SEED_STATE,
};
use crate::word::{
    count_letters, games_valid, is_match, Game, Match, Word, BLACK, GREEN, WORD_LEN, YELLOW,
};

verus! {

/// The value of a black tile.
pub fn black_tile() -> (t: u8)
    ensures
        t == BLACK,
{
    BLACK
}

/// The value of a yellow tile.
pub fn yellow_tile() -> (t: u8)
    ensures
        t == YELLOW,
{
    YELLOW
}

/// The value of a green tile.
pub fn green_tile() -> (t: u8)
    ensures
        t == GREEN,
{
    GREEN
}

/// Number of words in the list.
pub fn word_count(dict: &Dictionary) -> (n: usize)
    ensures
        n == dict@.len(),
{
    dict.len()
}

/// Number of words in the list that was loaded.
pub fn loaded_word_count(dict: &Dictionary) -> (n: usize)
    ensures
        n == dict@.len(),
{
    dict.len()
}

/// Progress is reported after the first candidate, after every 25th one
/// and after the last.
pub fn progress_due(checked: usize, total: usize) -> (due: bool)
    ensures
        due == (checked + 1 == total || checked % 25 == 0),
{
    checked as u128 + 1 == total as u128 || checked % 25 == 0
}

/// The word that the text `t` spells, where it spells one.
pub open spec fn spelled(t: Seq<char>) -> Word {
    choose|w: Word| spells(w, trim(t))
}

/// The score row, as text, of `guess` against `solution`.
pub fn score_word(guess: &str, solution: &str) -> (res: Result<String, SolverError>)
    ensures
        match res {
            Ok(s) => is_word_text(trim(guess@)) && is_word_text(trim(solution@)) && s@ == match_text(
                score_spec(spelled(guess@), spelled(solution@)),
            ),
            Err(e) => if is_word_text(trim(guess@)) {
                !is_word_text(trim(solution@)) && word_error(trim(solution@), solution@, e)
            } else {
                word_error(trim(guess@), guess@, e)
            },
        },
{
    let guess_word = parse_word(guess)?;
    let solution_word = parse_word(solution)?;
    let counts = count_letters(&solution_word);
    let row = score_match(&guess_word, &solution_word, &counts);
    proof {
        crate::parse::lemma_spells_unique(guess_word, spelled(guess@), trim(guess@));
        crate::parse::lemma_spells_unique(solution_word, spelled(solution@), trim(solution@));
    }
    Ok(match_to_string(&row))
}

/// The tile values of a score row given as text.
pub fn parse_match(match_text: &str) -> (res: Result<Vec<u8>, SolverError>)
    ensures
        match res {
            Ok(v) => trim(match_text@).len() == WORD_LEN && v@.len() == WORD_LEN && forall|i: int|
                0 <= i < WORD_LEN ==> tile_value(#[trigger] trim(match_text@)[i]) == Some(v@[i]),
            Err(SolverError::UnknownTile { tile, text }) => text@ == match_text@ && exists|k: int|
                0 <= k < WORD_LEN && k < trim(match_text@).len() && tiles_upto(
                    trim(match_text@),
                    k,
                ) && #[trigger] tile_value(trim(match_text@)[k]) is None && tile == trim(
                    match_text@,
                )[k],
            Err(SolverError::MatchLength { text }) => text@ == match_text@ && trim(
                match_text@,
            ).len() != WORD_LEN && tiles_upto(trim(match_text@), WORD_LEN as int),
            _ => false,
        },
{
    let row = parse_match_text(match_text)?;
    let mut v: Vec<u8> = Vec::new();
    for i in 0..WORD_LEN
        invariant
            v@ == row@.take(i as int),
    {
        v.push(row[i]);
        assert(v@ =~= row@.take(i + 1));
    }
    assert(row@.take(WORD_LEN as int) =~= row@);
    Ok(v)
}

/// The rows of all games, game after game.
pub open spec fn flatten_spec(games: Seq<Game>) -> Seq<Match>
    decreases games.len(),
{
    if games.len() == 0 {
        Seq::empty()
    } else {
        flatten_spec(games.drop_last()) + games.last().matches@
    }
}

/// The rows of all games, game after game.
pub fn flatten_matches(games: &Vec<Game>) -> (rows: Vec<Match>)
    ensures
        rows@ == flatten_spec(games@),
{
    let mut rows: Vec<Match> = Vec::new();
    for k in 0..games.len()
        invariant
            rows@ == flatten_spec(games@.take(k as int)),
    {
        let game = &games[k];
        for r in 0..game.matches.len()
            invariant
                k < games@.len(),
                *game == games@[k as int],
                rows@ == flatten_spec(games@.take(k as int)) + game.matches@.take(r as int),
        {
            rows.push(game.matches[r]);
            assert(rows@ =~= flatten_spec(games@.take(k as int)) + game.matches@.take(r + 1));
        }
        proof {
            assert(games@.take(k + 1).drop_last() =~= games@.take(k as int));
            assert(game.matches@.take(game.matches@.len() as int) =~= game.matches@);
        }
    }
    assert(games@.take(games@.len() as int) =~= games@);
    rows
}

proof fn lemma_flatten_valid(games: Seq<Game>)
    requires
        games_valid(games),
    ensures
        forall|r: int| 0 <= r < flatten_spec(games).len() ==> is_match(#[trigger] flatten_spec(games)[r]),
    decreases games.len(),
{
    if games.len() > 0 {
        let init = games.drop_last();
        assert forall|k: int, r: int|
            0 <= k < init.len() && 0 <= r < init[k].matches@.len() implies is_match(
            #[trigger] init[k].matches@[r],
        ) by {
            assert(init[k] == games[k]);
        }
        lemma_flatten_valid(init);
        let last = games.last().matches@;
        assert forall|r: int| 0 <= r < flatten_spec(games).len() implies is_match(#[trigger] flatten_spec(games)[r]) by {
            let n0 = flatten_spec(init).len();
            if r >= n0 {
                assert(flatten_spec(games)[r] == last[r - n0]);
                assert(is_match(games[games.len() - 1].matches@[r - n0]));
            } else {
                assert(flatten_spec(games)[r] == flatten_spec(init)[r]);
            }
        }
    }
}

/// The texts of the words at `idxs`.
pub fn words_to_strings(dict: &Dictionary, idxs: &Vec<usize>) -> (texts: Vec<String>)
    requires
        forall|i: int| 0 <= i < idxs@.len() ==> #[trigger] idxs@[i] < dict@.len(),
    ensures
        texts@.len() == idxs@.len(),
        forall|i: int|
            0 <= i < idxs@.len() ==> #[trigger] texts@[i]@ == word_text(dict@[idxs@[i] as int]),
{
    let mut texts: Vec<String> = Vec::new();
    for k in 0..idxs.len()
        invariant
            forall|i: int| 0 <= i < idxs@.len() ==> #[trigger] idxs@[i] < dict@.len(),
            texts@.len() == k,
            forall|i: int| 0 <= i < k ==> #[trigger] texts@[i]@ == word_text(dict@[idxs@[i] as int]),
    {
        let w = dict.word(idxs[k]);
        texts.push(word_to_string(&w));
    }
    texts
}

/// Positions, in increasing order, of the words that explain every row of
/// every game on its own.
pub open spec fn independent_spec(words: Seq<Word>, games: Seq<Game>) -> Seq<usize> {
    index_range(words.len()).filter(|i: usize| fits_rows(words, flatten_spec(games), i as int))
}

/// Positions, in increasing order, of the words that explain every game as a
/// sequence of hard-mode legal guesses, among those that pass the
/// independent-row test.
pub open spec fn hard_mode_spec(words: Seq<Word>, games: Seq<Game>) -> Seq<usize> {
    independent_spec(words, games).filter(|c: usize| solution_fits(words, games, c))
}

proof fn lemma_index_filter_bounded(n: nat, p: spec_fn(usize) -> bool)
    ensures
        forall|i: int| 0 <= i < index_range(n).filter(p).len() ==> #[trigger] index_range(n).filter(p)[i] < n,
{
    crate::trial::lemma_filter_bounded(index_range(n), p, n as int);
}

/// The words that explain every row of every game, each row on its own with
/// some guess from the list.
pub fn match_exists(dict: &Dictionary, games: &Vec<Game>) -> (words: Vec<String>)
    requires
        games_valid(games@),
    ensures
        words@.len() == independent_spec(dict@, games@).len(),
        forall|i: int|
            0 <= i < words@.len() ==> #[trigger] words@[i]@ == word_text(
                dict@[independent_spec(dict@, games@)[i] as int],
            ),
{
    let rows = flatten_matches(games);
    proof {
        lemma_flatten_valid(games@);
    }
    let possible = independent_match_exists(dict, &rows);
    proof {
        lemma_index_filter_bounded(dict@.len(), |i: usize| fits_rows(dict@, flatten_spec(games@), i as int));
    }
    words_to_strings(dict, &possible)
}

/// The words that explain every game as a sequence of hard-mode legal
/// guesses; the independent-row test runs first.
pub fn hard_mode_match_exists(dict: &Dictionary, games: &Vec<Game>) -> (words: Vec<String>)
    requires
        games_valid(games@),
    ensures
        words@.len() == hard_mode_spec(dict@, games@).len(),
        forall|i: int|
            0 <= i < words@.len() ==> #[trigger] words@[i]@ == word_text(
                dict@[hard_mode_spec(dict@, games@)[i] as int],
            ),
{
    let rows = flatten_matches(games);
    proof {
        lemma_flatten_valid(games@);
    }
    let independent = independent_match_exists(dict, &rows);
    proof {
        lemma_index_filter_bounded(dict@.len(), |i: usize| fits_rows(dict@, flatten_spec(games@), i as int));
    }
    let possible = hard_mode_candidates(dict, games, &independent);
    proof {
        crate::trial::lemma_filter_bounded(independent@, |c: usize| solution_fits(dict@, games@, c), dict@.len() as int);
    }
    words_to_strings(dict, &possible)
}

/// The text `t` spells a word of the list.
pub open spec fn names_word(words: Seq<Word>, t: Seq<char>) -> bool {
    exists|i: usize| #[trigger] is_last_spelled(words, t, i)
}

/// The text `t` reads as a score row.
pub open spec fn is_row_text(t: Seq<char>) -> bool {
    exists|m: Match| #[trigger] reads_as(t, m)
}

/// `idxs` holds, for each candidate text, the last position of the word it
/// spells.
pub open spec fn names_candidates(words: Seq<Word>, candidates: Seq<String>, idxs: Seq<usize>) -> bool {
    &&& idxs.len() == candidates.len()
    &&& forall|k: int|
        0 <= k < idxs.len() ==> #[trigger] is_last_spelled(words, candidates[k]@, idxs[k])
}

/// The words, among the candidates given by their texts, that explain every
/// game as a sequence of hard-mode legal guesses. The first candidate that
/// names no word of the list is reported.
pub fn hard_mode_match_exists_with_candidates(
    dict: &Dictionary,
    games: &Vec<Game>,
    candidates: &Vec<String>,
) -> (res: Result<Vec<String>, SolverError>)
    requires
        games_valid(games@),
    ensures
        match res {
            Ok(words) => exists|idxs: Seq<usize>|
                {
                    &&& #[trigger] names_candidates(dict@, candidates@, idxs)
                    &&& words@.len() == idxs.filter(|c: usize| solution_fits(dict@, games@, c)).len()
                    &&& forall|i: int|
                        0 <= i < words@.len() ==> #[trigger] words@[i]@ == word_text(
                            dict@[idxs.filter(|c: usize| solution_fits(dict@, games@, c))[i] as int],
                        )
                },
            Err(e) => exists|k: int|
                0 <= k < candidates@.len() && (forall|j: int|
                    0 <= j < k ==> #[trigger] names_word(dict@, candidates@[j]@))
                    && #[trigger] lookup_error(dict@, candidates@[k]@, e),
        },
{
    let mut idxs: Vec<usize> = Vec::new();
    for k in 0..candidates.len()
        invariant
            idxs@.len() == k,
            forall|j: int| 0 <= j < k ==> #[trigger] is_last_spelled(dict@, candidates@[j]@, idxs@[j]),
            forall|j: int| 0 <= j < k ==> #[trigger] idxs@[j] < dict@.len(),
    {
        match word_index(dict, candidates[k].as_str()) {
            Ok(i) => {
                idxs.push(i);
            },
            Err(e) => {
                proof {
                    assert forall|j: int| 0 <= j < k implies #[trigger] names_word(dict@, candidates@[j]@) by {
                        assert(is_last_spelled(dict@, candidates@[j]@, idxs@[j]));
                    }
                }
                return Err(e);
            },
        }
    }
    let possible = hard_mode_candidates(dict, games, &idxs);
    proof {
        crate::trial::lemma_filter_bounded(idxs@, |c: usize| solution_fits(dict@, games@, c), dict@.len() as int);
    }
    let words = words_to_strings(dict, &possible);
    proof {
        assert(names_candidates(dict@, candidates@, idxs@));
    }
    Ok(words)
}

/// The score-row texts of the guesses of all synthetic games, game after game.
pub open spec fn trial_texts(trials: Seq<TrialGame>) -> Seq<Seq<char>>
    decreases trials.len(),
{
    if trials.len() == 0 {
        Seq::empty()
    } else {
        trial_texts(trials.drop_last()) + trials.last().guesses@.map_values(
            |g: crate::trial::TrialGuess| g.match_text@,
        )
    }
}

/// `m` is the score row that the text `t` reads as.
pub open spec fn reads_as(t: Seq<char>, m: Match) -> bool {
    &&& trim(t).len() == WORD_LEN
    &&& is_match(m)
    &&& forall|i: int| 0 <= i < WORD_LEN ==> tile_value(#[trigger] trim(t)[i]) == Some(m[i])
}

/// `e` is why the text `t` is no score row.
pub open spec fn row_error(t: Seq<char>, e: SolverError) -> bool {
    match e {
        SolverError::UnknownTile { tile, text } => text@ == t && exists|k: int|
            0 <= k < WORD_LEN && k < trim(t).len() && tiles_upto(trim(t), k)
                && #[trigger] tile_value(trim(t)[k]) is None && tile == trim(t)[k],
        SolverError::MatchLength { text } => text@ == t && trim(t).len() != WORD_LEN && tiles_upto(
            trim(t),
            WORD_LEN as int,
        ),
        _ => false,
    }
}

/// `games` holds, game by game and row by row, the score rows that the guesses
/// of `trials` show.
pub open spec fn games_of_trials(trials: Seq<TrialGame>, games: Seq<Game>) -> bool {
    &&& games.len() == trials.len()
    &&& forall|k: int|
        0 <= k < games.len() ==> (#[trigger] games[k]).matches@.len() == trials[k].guesses@.len()
    &&& forall|k: int, r: int|
        0 <= k < games.len() && 0 <= r < games[k].matches@.len() ==> reads_as(
            trials[k].guesses@[r].match_text@,
            #[trigger] games[k].matches@[r],
        )
}

/// The hidden games of synthetic games: the score rows read back from the
/// texts of their guesses. The first text that is no score row is reported.
pub fn games_from_trials(trials: &Vec<TrialGame>) -> (res: Result<Vec<Game>, SolverError>)
    ensures
        match res {
            Ok(games) => games_of_trials(trials@, games@) && games_valid(games@),
            Err(e) => exists|q: int|
                0 <= q < trial_texts(trials@).len() && (forall|p: int|
                    0 <= p < q ==> #[trigger] is_row_text(trial_texts(trials@)[p]))
                    && #[trigger] row_error(trial_texts(trials@)[q], e),
        },
{
    let mut games: Vec<Game> = Vec::new();
    let num_trials = trials.len();
    let mut k: usize = 0;
    proof {
        assert(trials@.take(0) =~= Seq::<TrialGame>::empty());
        assert(trial_texts(trials@.take(0)) =~= Seq::<Seq<char>>::empty());
    }
    while k < num_trials
        invariant
            num_trials == trials@.len(),
            k <= num_trials,
            games@.len() == k,
            games_of_trials(trials@.take(k as int), games@),
            forall|p: int| 0 <= p < trial_texts(trials@.take(k as int)).len() ==> #[trigger] is_row_text(
                trial_texts(trials@.take(k as int))[p],
            ),
        decreases num_trials - k,
    {
        let trial = &trials[k];
        let mut matches: Vec<Match> = Vec::new();
        let ghost done = trial_texts(trials@.take(k as int));
        assert forall|p: int| 0 <= p < done.len() implies #[trigger] is_row_text(done[p]) by {
            assert(is_row_text(trial_texts(trials@.take(k as int))[p]));
        }
        for r in 0..trial.guesses.len()
            invariant
                k < trials@.len(),
                *trial == trials@[k as int],
                done == trial_texts(trials@.take(k as int)),
                forall|p: int| 0 <= p < done.len() ==> #[trigger] is_row_text(done[p]),
                matches@.len() == r,
                forall|q: int| 0 <= q < r ==> reads_as(trial.guesses@[q].match_text@, #[trigger] matches@[q]),
        {
            match parse_match_text(trial.guesses[r].match_text.as_str()) {
                Ok(m) => {
                    matches.push(m);
                },
                Err(e) => {
                    proof {
                        let texts = trial_texts(trials@);
                        let q = done.len() + r;
                        lemma_trial_texts_prefix(trials@, k as int, r as int);
                        assert(texts[q] == trial.guesses@[r as int].match_text@);
                        assert(row_error(texts[q], e));
                        assert forall|p: int| 0 <= p < q implies #[trigger] is_row_text(texts[p]) by {
                            if p < done.len() {
                                assert(texts[p] == done[p]);
                            } else {
                                lemma_trial_texts_prefix(trials@, k as int, p - done.len());
                                assert(texts[p] == trial.guesses@[p - done.len()].match_text@);
                                assert(reads_as(trial.guesses@[p - done.len()].match_text@, matches@[p - done.len()]));
                            }
                        }
                    }
                    return Err(e);
                },
            }
        }
        let ghost old_games = games@;
        games.push(Game { matches });
        proof {
            let tk = trials@.take(k + 1);
            assert(tk.drop_last() =~= trials@.take(k as int));
            assert(tk.last() == *trial);
            assert(trial_texts(tk) == done + trial.guesses@.map_values(
                |g: crate::trial::TrialGuess| g.match_text@,
            ));
            assert forall|p: int| 0 <= p < trial_texts(tk).len() implies #[trigger] is_row_text(trial_texts(tk)[p]) by {
                if p < done.len() {
                    assert(trial_texts(tk)[p] == done[p]);
                } else {
                    let r = p - done.len();
                    assert(trial_texts(tk)[p] == trial.guesses@[r].match_text@);
                    assert(reads_as(trial.guesses@[r].match_text@, games@[k as int].matches@[r]));
                }
            }
            assert(trials@.take(k + 1) == tk);
            assert forall|j: int, r: int|
                0 <= j < games@.len() && 0 <= r < games@[j].matches@.len() implies reads_as(
                tk[j].guesses@[r].match_text@,
                #[trigger] games@[j].matches@[r],
            ) by {
                if j < k {
                    assert(games@[j] == old_games[j]);
                    assert(tk[j] == trials@.take(k as int)[j]);
                }
            }
        }
        k = k + 1;
    }
    proof {
        assert(trials@.take(trials@.len() as int) =~= trials@);
        assert forall|j: int, r: int|
            0 <= j < games@.len() && 0 <= r < games@[j].matches@.len() implies is_match(
            #[trigger] games@[j].matches@[r],
        ) by {
            assert(reads_as(trials@[j].guesses@[r].match_text@, games@[j].matches@[r]));
        }
    }
    Ok(games)
}

/// The words that explain every synthetic game, read back from the score-row
/// texts of its guesses, as a sequence of hard-mode legal guesses. The first
/// text that is no score row is reported.
pub fn hard_mode_match_exists_for_trials(dict: &Dictionary, trials: &Vec<TrialGame>) -> (res:
    Result<Vec<String>, SolverError>)
    ensures
        match res {
            Ok(words) => exists|games: Seq<Game>|
                {
                    &&& #[trigger] games_of_trials(trials@, games)
                    &&& words@.len() == hard_mode_spec(dict@, games).len()
                    &&& forall|i: int|
                        0 <= i < words@.len() ==> #[trigger] words@[i]@ == word_text(
                            dict@[hard_mode_spec(dict@, games)[i] as int],
                        )
                },
            Err(e) => exists|q: int|
                0 <= q < trial_texts(trials@).len() && (forall|p: int|
                    0 <= p < q ==> #[trigger] is_row_text(trial_texts(trials@)[p]))
                    && #[trigger] row_error(trial_texts(trials@)[q], e),
        },
{
    let games = games_from_trials(trials)?;
    let words = hard_mode_match_exists(dict, &games);
    assert(games_of_trials(trials@, games@));
    Ok(words)
}

proof fn lemma_trial_texts_prefix(trials: Seq<TrialGame>, k: int, r: int)
    requires
        0 <= k < trials.len(),
        0 <= r < trials[k].guesses@.len(),
    ensures
        trial_texts(trials.take(k)).len() + r < trial_texts(trials).len(),
        trial_texts(trials)[trial_texts(trials.take(k)).len() + r] == trials[k].guesses@[r].match_text@,
        forall|p: int| 0 <= p < trial_texts(trials.take(k)).len() ==> #[trigger] trial_texts(trials)[p] == trial_texts(trials.take(k))[p],
    decreases trials.len(),
{
    if k == trials.len() - 1 {
        assert(trials.drop_last() =~= trials.take(k));
    } else {
        lemma_trial_texts_prefix(trials.drop_last(), k, r);
        assert(trials.drop_last().take(k) =~= trials.take(k));
        assert(trials.drop_last()[k] == trials[k]);
    }
}

/// The generator state after `t` synthetic games from state `rng`.
pub open spec fn rng_after_trials(words: Seq<Word>, answer: Word, hard_mode: bool, rng: u64, t: nat) -> u64
    decreases t,
{
    if t == 0 {
        rng
    } else {
        trial_run(
            words,
            answer,
            hard_mode,
            Seq::empty(),
            rng_after_trials(words, answer, hard_mode, rng, (t - 1) as nat),
            MAX_GUESSES as nat,
        ).1
    }
}

/// `games` are `n_trials` synthetic games against the last word of `words`
/// that `answer` spells, played one after another from the generator seeded
/// with `seed`.
pub open spec fn generated_trials(
    words: Seq<Word>,
    answer: Seq<char>,
    n_trials: nat,
    seed: u64,
    hard_mode: bool,
    games: Seq<TrialGame>,
) -> bool {
    exists|i: usize|
        {
            &&& #[trigger] is_last_spelled(words, answer, i)
            &&& games.len() == n_trials
            &&& forall|t: int|
                0 <= t < n_trials ==> {
                    &&& (#[trigger] games[t]).answer@ == answer.map_values(|c: char| ascii_lower(c))
                    &&& describes_guesses(
                        games[t].guesses@,
                        words,
                        words[i as int],
                        trial_run(
                            words,
                            words[i as int],
                            hard_mode,
                            Seq::empty(),
                            rng_after_trials(
                                words,
                                words[i as int],
                                hard_mode,
                                if seed == 0 {
                                    ZERO_SEED_STATE
                                } else {
                                    seed
                                },
                                t as nat,
                            ),
                            MAX_GUESSES as nat,
                        ).0,
                    )
                }
        }
}

/// `n_trials` synthetic games against the word that `answer` spells, one
/// after another from the generator seeded with `seed`.
pub fn generate_trials_native(
    dict: &Dictionary,
    answer: &str,
    n_trials: usize,
    seed: u64,
    hard_mode: bool,
) -> (res: Result<Vec<TrialGame>, SolverError>)
    ensures
        match res {
            Ok(games) => generated_trials(dict@, answer@, n_trials as nat, seed, hard_mode, games@),
            Err(e) => lookup_error(dict@, answer@, e),
        },
{
    let answer_idx = word_index(dict, answer)?;
    let mut rng = XorShift64::new(seed);
    let ghost rng0 = rng@;
    let mut trials: Vec<TrialGame> = Vec::new();
    for t in 0..n_trials
        invariant
            answer_idx < dict@.len(),
            rng0 == if seed == 0 {
                ZERO_SEED_STATE
            } else {
                seed
            },
            trials@.len() == t,
            rng@ == rng_after_trials(dict@, dict@[answer_idx as int], hard_mode, rng0, t as nat),
            forall|q: int|
                0 <= q < t ==> {
                    &&& (#[trigger] trials@[q]).answer@ == answer@.map_values(|c: char| ascii_lower(c))
                    &&& describes_guesses(
                        trials@[q].guesses@,
                        dict@,
                        dict@[answer_idx as int],
                        trial_run(
                            dict@,
                            dict@[answer_idx as int],
                            hard_mode,
                            Seq::empty(),
                            rng_after_trials(dict@, dict@[answer_idx as int], hard_mode, rng0, q as nat),
                            MAX_GUESSES as nat,
                        ).0,
                    )
                },
    {
        let game = run_trial(dict, answer_idx, answer, &mut rng, hard_mode);
        trials.push(game);
    }
    assert(is_last_spelled(dict@, answer@, answer_idx));
    Ok(trials)
}

} // verus!
