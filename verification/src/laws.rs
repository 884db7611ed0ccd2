//! Properties of the solver as a whole: how scoring treats letters, what text
//! round trips give back, and that the filters never drop the answer that
//! produced a game.
use vstd::prelude::*;

use crate::api::{
    flatten_spec, games_of_trials, generated_trials, hard_mode_spec, independent_spec, reads_as,
    rng_after_trials, trial_texts,
};
use crate::dictionary::is_last_spelled;
use crate::hard_mode::{
    game_possible_spec, hard_mode_allows, is_initial_state, is_state_path, is_update, reachable,
    revealed_count, revealed_prefix, solution_fits, successor, HardModeState,
};
use crate::trial::{
    agrees, allowed_after, describes_guesses, is_guess_path, is_state_after,
    lemma_filter_bounded, lemma_state_after_unique, next_guess, trial_candidates, trial_pool,
    trial_run, TrialGame, TrialGuess, MAX_GUESSES, ZERO_SEED_STATE,
};
use crate::word::is_row;
use crate::word::ALPHABET;
use vstd::array::spec_array_update;
use crate::parse::{
    all_letters, is_ascii_letter, is_word_text, letter_char, letter_value, match_text, spells,
    tile_value, utf8_len, word_text,
};
use crate::prefilter::{
    fits_rows, index_range, lemma_filter_congruent, lemma_filter_filter, row_explained,
};
use crate::text::{is_white_space, trim, trim_end, trim_start};
use crate::word::{is_match, Game, Match};
use crate::score::{green_prefix, misplaced_prefix, score_spec, tile_spec};
use crate::word::{count_prefix, is_word, letter_count, Word, BLACK, GREEN, WORD_LEN, YELLOW};

verus! {

/// Positions `j < n` where the guess holds `c` and scores yellow.
pub open spec fn yellow_prefix(guess: Word, solution: Word, c: u8, n: int) -> nat
    decreases n,
{
    if n <= 0 {
        0
    } else {
        yellow_prefix(guess, solution, c, n - 1) + if guess[n - 1] == c && tile_spec(
            guess,
            solution,
            n - 1,
        ) == YELLOW {
            1nat
        } else {
            0nat
        }
    }
}

proof fn lemma_green_le_count(guess: Word, solution: Word, c: u8, n: int)
    requires
        0 <= n <= WORD_LEN,
    ensures
        green_prefix(guess, solution, c, n) <= count_prefix(solution@, c, n),
    decreases n,
{
    if n > 0 {
        lemma_green_le_count(guess, solution, c, n - 1);
    }
}

proof fn lemma_yellow_prefix(guess: Word, solution: Word, c: u8, n: int)
    requires
        0 <= n <= WORD_LEN,
    ensures
        ({
            let spare = letter_count(solution, c) - green_prefix(guess, solution, c, WORD_LEN as int);
            let mp = misplaced_prefix(guess, solution, c, n);
            yellow_prefix(guess, solution, c, n) == if mp <= spare {
                mp as int
            } else {
                spare
            }
        }),
    decreases n,
{
    lemma_green_le_count(guess, solution, c, WORD_LEN as int);
    if n > 0 {
        lemma_yellow_prefix(guess, solution, c, n - 1);
    }
}

proof fn lemma_revealed_split(guess: Word, solution: Word, c: u8, n: int)
    requires
        0 <= n <= WORD_LEN,
    ensures
        revealed_prefix(guess, score_spec(guess, solution), c, n) == green_prefix(
            guess,
            solution,
            c,
            n,
        ) + yellow_prefix(guess, solution, c, n),
        count_prefix(guess@, c, n) == green_prefix(guess, solution, c, n) + misplaced_prefix(
            guess,
            solution,
            c,
            n,
        ),
    decreases n,
{
    if n > 0 {
        lemma_revealed_split(guess, solution, c, n - 1);
    }
}

/// Wordle's rule for repeated letters: the tiles of a letter that are not
/// black number as many as the copies of that letter that the guess and the
/// solution have in common.
pub proof fn lemma_revealed_is_common_count(guess: Word, solution: Word, c: u8)
    ensures
        revealed_count(guess, score_spec(guess, solution), c) == if letter_count(guess, c)
            <= letter_count(solution, c) {
            letter_count(guess, c)
        } else {
            letter_count(solution, c)
        },
{
    lemma_revealed_split(guess, solution, c, WORD_LEN as int);
    lemma_yellow_prefix(guess, solution, c, WORD_LEN as int);
    lemma_green_le_count(guess, solution, c, WORD_LEN as int);
}

/// A word scored against itself is all green.
pub proof fn lemma_self_score_all_green(w: Word)
    ensures
        forall|i: int| 0 <= i < WORD_LEN ==> #[trigger] score_spec(w, w)[i] == GREEN,
{
}

proof fn lemma_count_positive(w: Word, c: u8, i: int, n: int)
    requires
        0 <= i < n <= WORD_LEN,
        w[i] == c,
    ensures
        count_prefix(w@, c, n) > 0,
    decreases n,
{
    if i < n - 1 {
        lemma_count_positive(w, c, i, n - 1);
    }
}

/// A letter that the solution does not hold scores black, and a yellow tile
/// marks a letter that the solution holds at another position.
pub proof fn lemma_tile_meaning(guess: Word, solution: Word, i: int)
    requires
        0 <= i < WORD_LEN,
    ensures
        letter_count(solution, guess[i]) == 0 ==> tile_spec(guess, solution, i) == BLACK,
        tile_spec(guess, solution, i) == YELLOW ==> guess[i] != solution[i] && letter_count(
            solution,
            guess[i],
        ) > 0,
        tile_spec(guess, solution, i) == GREEN <==> guess[i] == solution[i],
{
    if guess[i] == solution[i] {
        lemma_count_positive(solution, guess[i], i, WORD_LEN as int);
    }
}

/// Text in which no character is white space is its own trim.
proof fn lemma_trim_no_space(s: Seq<char>)
    requires
        forall|i: int| 0 <= i < s.len() ==> !is_white_space(#[trigger] s[i]),
    ensures
        trim(s) == s,
{
    if s.len() > 0 {
        assert(!is_white_space(s[0]));
        assert(!is_white_space(s[s.len() - 1]));
    }
}

/// Writing a score row as text and reading the text back gives the row.
pub proof fn lemma_row_text_round_trip(m: Match)
    requires
        is_match(m),
    ensures
        reads_as(match_text(m@), m),
        forall|m2: Match| #[trigger] reads_as(match_text(m@), m2) ==> m2 == m,
{
    let t = match_text(m@);
    assert forall|i: int| 0 <= i < t.len() implies !is_white_space(#[trigger] t[i]) by {
        assert(m[i] <= 2);
    }
    lemma_trim_no_space(t);
    assert forall|i: int| 0 <= i < WORD_LEN implies tile_value(#[trigger] trim(t)[i]) == Some(m[i]) by {
        assert(m[i] <= 2);
    }
    assert forall|m2: Match| #[trigger] reads_as(t, m2) implies m2 == m by {
        assert forall|i: int| 0 <= i < WORD_LEN implies m2[i] == m[i] by {
            assert(tile_value(trim(t)[i]) == Some(m2[i]));
            assert(tile_value(trim(t)[i]) == Some(m[i]));
        }
        assert(m2 =~= m);
    }
}

proof fn lemma_utf8_len_of_letters(s: Seq<char>)
    requires
        all_letters(s),
    ensures
        utf8_len(s) == s.len(),
    decreases s.len(),
{
    if s.len() > 0 {
        assert(is_ascii_letter(s[s.len() - 1]));
        assert forall|i: int| 0 <= i < s.drop_last().len() implies is_ascii_letter(#[trigger] s.drop_last()[i]) by {
            assert(s.drop_last()[i] == s[i]);
        }
        lemma_utf8_len_of_letters(s.drop_last());
    }
}

/// Writing a word as text and reading the text back gives the word.
pub proof fn lemma_word_text_round_trip(w: Word)
    requires
        is_word(w),
    ensures
        is_word_text(trim(word_text(w))),
        spells(w, trim(word_text(w))),
{
    let t = word_text(w);
    assert forall|i: int| 0 <= i < t.len() implies is_ascii_letter(#[trigger] t[i]) && !is_white_space(t[i]) by {
        assert(w[i] < 26);
        assert(t[i] == letter_char(w[i]));
    }
    lemma_trim_no_space(t);
    lemma_utf8_len_of_letters(t);
    assert forall|i: int| 0 <= i < WORD_LEN implies #[trigger] w[i] == letter_value(t[i]) by {
        assert(w[i] < 26);
    }
}

proof fn lemma_flatten_index(games: Seq<Game>, r: int)
    requires
        0 <= r < flatten_spec(games).len(),
    ensures
        exists|k: int, q: int|
            0 <= k < games.len() && 0 <= q < games[k].matches@.len() && flatten_spec(games)[r]
                == #[trigger] games[k].matches@[q],
    decreases games.len(),
{
    let init = games.drop_last();
    let n0 = flatten_spec(init).len();
    if r < n0 {
        lemma_flatten_index(init, r);
        let (k, q) = choose|k: int, q: int|
            0 <= k < init.len() && 0 <= q < init[k].matches@.len() && flatten_spec(init)[r]
                == #[trigger] init[k].matches@[q];
        assert(games[k] == init[k]);
        assert(flatten_spec(games)[r] == flatten_spec(init)[r]);
    } else {
        let k = games.len() - 1;
        assert(flatten_spec(games)[r] == games[k].matches@[r - n0]);
    }
}

/// A game that a word explains in hard mode explains each of its rows on its
/// own: the independent-row pass never drops an answer that the hard-mode
/// pass would keep.
pub proof fn lemma_hard_mode_fit_passes_independent(words: Seq<Word>, games: Seq<Game>, c: usize)
    requires
        solution_fits(words, games, c),
    ensures
        fits_rows(words, flatten_spec(games), c as int),
{
    let rows = flatten_spec(games);
    assert forall|r: int| 0 <= r < rows.len() implies #[trigger] row_explained(words, c as int, rows[r]) by {
        lemma_flatten_index(games, r);
        let (k, q) = choose|k: int, q: int|
            0 <= k < games.len() && 0 <= q < games[k].matches@.len() && rows[r]
                == #[trigger] games[k].matches@[q];
        let game_rows = games[k].matches@;
        assert(game_possible_spec(words, words[c as int], game_rows));
        let t = choose|t: HardModeState| #[trigger] reachable(words, words[c as int], game_rows, t);
        let path = choose|path: Seq<HardModeState>|
            #[trigger] is_state_path(words, words[c as int], game_rows, path) && path.last() == t;
        assert(successor(words, words[c as int], path[q], game_rows[q], path[q + 1]));
        let g = choose|g: int|
            0 <= g < words.len() && #[trigger] crate::hard_mode::hard_mode_allows(path[q], words[g])
                && score_spec(words[g], words[c as int]) == game_rows[q]@
                && crate::hard_mode::is_update(path[q], words[g], game_rows[q]@, path[q + 1]);
        assert(score_spec(words[g], words[c as int]) == rows[r]@);
    }
}

/// Running the independent-row pass before the hard-mode pass changes
/// nothing: the result is exactly the words, in list order, that explain
/// every game in hard mode.
pub proof fn lemma_prefilter_keeps_hard_mode_result(words: Seq<Word>, games: Seq<Game>)
    ensures
        hard_mode_spec(words, games) == index_range(words.len()).filter(
            |c: usize| solution_fits(words, games, c),
        ),
{
    let a = |i: usize| fits_rows(words, flatten_spec(games), i as int);
    let b = |c: usize| solution_fits(words, games, c);
    lemma_filter_filter(index_range(words.len()), a, b);
    assert forall|k: int| 0 <= k < index_range(words.len()).len() implies (|x: usize| a(x) && b(x))(
        #[trigger] index_range(words.len())[k],
    ) == b(index_range(words.len())[k]) by {
        let c = index_range(words.len())[k];
        if b(c) {
            lemma_hard_mode_fit_passes_independent(words, games, c);
        }
    }
    lemma_filter_congruent(index_range(words.len()), |x: usize| a(x) && b(x), b);
}

/// The greens of `old` after the first `n` tiles of `row` for `guess`.
spec fn greens_upto(old: [i8; WORD_LEN], guess: Word, row: Seq<u8>, n: int) -> [i8; WORD_LEN]
    decreases n,
{
    if n <= 0 {
        old
    } else {
        spec_array_update(
            greens_upto(old, guess, row, n - 1),
            n - 1,
            if row[n - 1] == GREEN {
                guess[n - 1] as i8
            } else {
                old[n - 1]
            },
        )
    }
}

proof fn lemma_greens_upto(old: [i8; WORD_LEN], guess: Word, row: Seq<u8>, n: int)
    requires
        0 <= n <= WORD_LEN,
    ensures
        forall|i: int|
            0 <= i < WORD_LEN ==> #[trigger] greens_upto(old, guess, row, n)[i] == if i < n
                && row[i] == GREEN {
                guess[i] as i8
            } else {
                old[i]
            },
    decreases n,
{
    if n > 0 {
        lemma_greens_upto(old, guess, row, n - 1);
        let prev = greens_upto(old, guess, row, n - 1);
        let v = if row[n - 1] == GREEN {
            guess[n - 1] as i8
        } else {
            old[n - 1]
        };
        assert(greens_upto(old, guess, row, n) == spec_array_update(prev, n - 1, v));
        assert(spec_array_update(prev, n - 1, v)@ == prev@.update(n - 1, v));
    }
}

/// The least counts of `old` after the letters below `n` are raised to what
/// the row reveals.
spec fn mins_upto(old: [u8; ALPHABET], guess: Word, row: Seq<u8>, n: int) -> [u8; ALPHABET]
    decreases n,
{
    if n <= 0 {
        old
    } else {
        spec_array_update(
            mins_upto(old, guess, row, n - 1),
            n - 1,
            if old[n - 1] >= revealed_count(guess, row, (n - 1) as u8) {
                old[n - 1]
            } else {
                revealed_count(guess, row, (n - 1) as u8) as u8
            },
        )
    }
}

proof fn lemma_mins_upto(old: [u8; ALPHABET], guess: Word, row: Seq<u8>, n: int)
    requires
        0 <= n <= ALPHABET,
    ensures
        forall|c: int|
            0 <= c < ALPHABET ==> #[trigger] mins_upto(old, guess, row, n)[c] == if c < n {
                if old[c] >= revealed_count(guess, row, c as u8) {
                    old[c]
                } else {
                    revealed_count(guess, row, c as u8) as u8
                }
            } else {
                old[c]
            },
    decreases n,
{
    if n > 0 {
        lemma_mins_upto(old, guess, row, n - 1);
        let prev = mins_upto(old, guess, row, n - 1);
        let v = if old[n - 1] >= revealed_count(guess, row, (n - 1) as u8) {
            old[n - 1]
        } else {
            revealed_count(guess, row, (n - 1) as u8) as u8
        };
        assert(mins_upto(old, guess, row, n) == spec_array_update(prev, n - 1, v));
        assert(spec_array_update(prev, n - 1, v)@ == prev@.update(n - 1, v));
    }
}

/// The forbidden positions of one letter after the first `n` tiles.
spec fn forbidden_row_upto(old: [bool; WORD_LEN], guess: Word, row: Seq<u8>, c: int, n: int) -> [bool; WORD_LEN]
    decreases n,
{
    if n <= 0 {
        old
    } else {
        spec_array_update(
            forbidden_row_upto(old, guess, row, c, n - 1),
            n - 1,
            old[n - 1] || (row[n - 1] == YELLOW && guess[n - 1] == c),
        )
    }
}

proof fn lemma_forbidden_row_upto(old: [bool; WORD_LEN], guess: Word, row: Seq<u8>, c: int, n: int)
    requires
        0 <= n <= WORD_LEN,
    ensures
        forall|i: int|
            0 <= i < WORD_LEN ==> #[trigger] forbidden_row_upto(old, guess, row, c, n)[i] == if i
                < n {
                old[i] || (row[i] == YELLOW && guess[i] == c)
            } else {
                old[i]
            },
    decreases n,
{
    if n > 0 {
        lemma_forbidden_row_upto(old, guess, row, c, n - 1);
        let prev = forbidden_row_upto(old, guess, row, c, n - 1);
        let v = old[n - 1] || (row[n - 1] == YELLOW && guess[n - 1] == c);
        assert(forbidden_row_upto(old, guess, row, c, n) == spec_array_update(prev, n - 1, v));
        assert(spec_array_update(prev, n - 1, v)@ == prev@.update(n - 1, v));
    }
}

/// The forbidden table of `old` after the letters below `n` are updated.
spec fn forbidden_upto(
    old: [[bool; WORD_LEN]; ALPHABET],
    guess: Word,
    row: Seq<u8>,
    n: int,
) -> [[bool; WORD_LEN]; ALPHABET]
    decreases n,
{
    if n <= 0 {
        old
    } else {
        spec_array_update(
            forbidden_upto(old, guess, row, n - 1),
            n - 1,
            forbidden_row_upto(old[n - 1], guess, row, n - 1, WORD_LEN as int),
        )
    }
}

proof fn lemma_forbidden_upto(old: [[bool; WORD_LEN]; ALPHABET], guess: Word, row: Seq<u8>, n: int)
    requires
        0 <= n <= ALPHABET,
    ensures
        forall|c: int|
            0 <= c < ALPHABET ==> #[trigger] forbidden_upto(old, guess, row, n)[c] == if c < n {
                forbidden_row_upto(old[c], guess, row, c, WORD_LEN as int)
            } else {
                old[c]
            },
    decreases n,
{
    if n > 0 {
        lemma_forbidden_upto(old, guess, row, n - 1);
        let prev = forbidden_upto(old, guess, row, n - 1);
        let v = forbidden_row_upto(old[n - 1], guess, row, n - 1, WORD_LEN as int);
        assert(forbidden_upto(old, guess, row, n) == spec_array_update(prev, n - 1, v));
        assert(spec_array_update(prev, n - 1, v)@ == prev@.update(n - 1, v));
    }
}

/// The state after `guess` scored `row` in state `s`.
spec fn update_fn(s: HardModeState, guess: Word, row: Seq<u8>) -> HardModeState {
    HardModeState {
        greens: greens_upto(s.greens, guess, row, WORD_LEN as int),
        min_counts: mins_upto(s.min_counts, guess, row, ALPHABET as int),
        forbidden: forbidden_upto(s.forbidden, guess, row, ALPHABET as int),
    }
}

proof fn lemma_revealed_bound(guess: Word, row: Seq<u8>, c: u8, n: int)
    requires
        0 <= n <= WORD_LEN,
    ensures
        revealed_prefix(guess, row, c, n) <= n,
    decreases n,
{
    if n > 0 {
        lemma_revealed_bound(guess, row, c, n - 1);
    }
}

/// Every state has an update for every guess and row.
proof fn lemma_update_fn(s: HardModeState, guess: Word, row: Seq<u8>)
    ensures
        is_update(s, guess, row, update_fn(s, guess, row)),
{
    let t = update_fn(s, guess, row);
    lemma_greens_upto(s.greens, guess, row, WORD_LEN as int);
    lemma_mins_upto(s.min_counts, guess, row, ALPHABET as int);
    lemma_forbidden_upto(s.forbidden, guess, row, ALPHABET as int);
    assert forall|c: int| 0 <= c < ALPHABET implies #[trigger] t.min_counts[c] == if s.min_counts[c]
        >= revealed_count(guess, row, c as u8) {
        s.min_counts[c] as int
    } else {
        revealed_count(guess, row, c as u8) as int
    } by {
        lemma_revealed_bound(guess, row, c as u8, WORD_LEN as int);
    }
    assert forall|c: int, i: int|
        0 <= c < ALPHABET && 0 <= i < WORD_LEN implies #[trigger] t.forbidden[c][i] == (
        s.forbidden[c][i] || (row[i] == YELLOW && guess[i] == c)) by {
        lemma_forbidden_row_upto(s.forbidden[c], guess, row, c, WORD_LEN as int);
    }
}

/// The state before any guess.
spec fn initial_spec() -> HardModeState {
    HardModeState {
        greens: [-1i8; WORD_LEN],
        min_counts: [0u8; ALPHABET],
        forbidden: [[false; WORD_LEN]; ALPHABET],
    }
}

proof fn lemma_initial_spec()
    ensures
        is_initial_state(initial_spec()),
{
    let s = initial_spec();
    assert forall|c: int, i: int| 0 <= c < ALPHABET && 0 <= i < WORD_LEN implies !#[trigger] s.forbidden[c][i] by {
        assert(s.forbidden[c] == [false; WORD_LEN]);
    }
}

/// A word that scored a guess's row as the answer did stays allowed after
/// that row, where it was allowed before it.
proof fn lemma_update_keeps_allowed(
    s: HardModeState,
    guess: Word,
    answer: Word,
    w: Word,
    t: HardModeState,
)
    requires
        is_word(guess),
        is_word(w),
        hard_mode_allows(s, w),
        score_spec(guess, w) == score_spec(guess, answer),
        is_update(s, guess, score_spec(guess, answer), t),
    ensures
        hard_mode_allows(t, w),
{
    let row = score_spec(guess, answer);
    assert forall|i: int| 0 <= i < WORD_LEN && t.greens[i] != -1 implies w[i] == #[trigger] t.greens[i] as u8 by {
        lemma_tile_meaning(guess, w, i);
        assert(guess[i] < 26);
        if row[i] == GREEN {
            assert(score_spec(guess, w)[i] == GREEN);
        }
    }
    assert forall|c: int| 0 <= c < ALPHABET implies letter_count(w, c as u8) >= #[trigger] t.min_counts[c] by {
        lemma_revealed_is_common_count(guess, w, c as u8);
    }
    assert forall|c: int, i: int|
        0 <= c < ALPHABET && 0 <= i < WORD_LEN && #[trigger] t.forbidden[c][i] implies w[i] != c by {
        lemma_tile_meaning(guess, w, i);
        if row[i] == YELLOW {
            assert(score_spec(guess, w)[i] == YELLOW);
        }
    }
}

/// The words of `words` are all words of 26 letters and the positions of
/// `hist` are positions of `words`.
pub open spec fn valid_history(words: Seq<Word>, hist: Seq<usize>) -> bool {
    &&& forall|i: int| 0 <= i < words.len() ==> is_word(#[trigger] words[i])
    &&& forall|k: int| 0 <= k < hist.len() ==> #[trigger] hist[k] < words.len()
}

/// A word that would have given every guess so far the row that the answer
/// gave is a legal hard-mode guess now.
pub proof fn lemma_agreeing_word_allowed(
    words: Seq<Word>,
    answer: Word,
    hist: Seq<usize>,
    t: HardModeState,
    w: Word,
)
    requires
        valid_history(words, hist),
        is_word(w),
        is_state_after(words, answer, hist, t),
        forall|k: int|
            0 <= k < hist.len() ==> score_spec(words[#[trigger] hist[k] as int], w) == score_spec(
                words[hist[k] as int],
                answer,
            ),
    ensures
        hard_mode_allows(t, w),
{
    let path = choose|path: Seq<HardModeState>|
        #[trigger] is_guess_path(words, answer, hist, path) && path.last() == t;
    lemma_path_allows(words, answer, hist, path, w, hist.len() as int);
}

proof fn lemma_path_allows(
    words: Seq<Word>,
    answer: Word,
    hist: Seq<usize>,
    path: Seq<HardModeState>,
    w: Word,
    i: int,
)
    requires
        valid_history(words, hist),
        is_word(w),
        is_guess_path(words, answer, hist, path),
        0 <= i <= hist.len(),
        forall|k: int|
            0 <= k < hist.len() ==> score_spec(words[#[trigger] hist[k] as int], w) == score_spec(
                words[hist[k] as int],
                answer,
            ),
    ensures
        hard_mode_allows(path[i], w),
    decreases i,
{
    if i == 0 {
        assert(is_initial_state(path[0]));
    } else {
        let j = i - 1;
        lemma_path_allows(words, answer, hist, path, w, j);
        let g = words[hist[j] as int];
        assert(is_update(path[j], words[hist[j] as int], score_spec(words[hist[j] as int], answer), path[j + 1]));
        assert(score_spec(words[hist[j] as int], w) == score_spec(words[hist[j] as int], answer));
        lemma_update_keeps_allowed(path[j], g, answer, w, path[i]);
    }
}

/// The path of states that the guesses `hist` lead through.
spec fn state_path_fn(words: Seq<Word>, answer: Word, hist: Seq<usize>) -> Seq<HardModeState>
    decreases hist.len(),
{
    if hist.len() == 0 {
        seq![initial_spec()]
    } else {
        let prev = state_path_fn(words, answer, hist.drop_last());
        let g = words[hist.last() as int];
        prev.push(update_fn(prev.last(), g, score_spec(g, answer)))
    }
}

proof fn lemma_state_path_fn(words: Seq<Word>, answer: Word, hist: Seq<usize>)
    ensures
        is_guess_path(words, answer, hist, state_path_fn(words, answer, hist)),
    decreases hist.len(),
{
    lemma_initial_spec();
    if hist.len() > 0 {
        let init = hist.drop_last();
        lemma_state_path_fn(words, answer, init);
        let prev = state_path_fn(words, answer, init);
        let g = words[hist.last() as int];
        lemma_update_fn(prev.last(), g, score_spec(g, answer));
        let p = state_path_fn(words, answer, hist);
        assert forall|i: int| 0 <= i < hist.len() implies #[trigger] is_update(
            p[i],
            words[hist[i] as int],
            score_spec(words[hist[i] as int], answer),
            p[i + 1],
        ) by {
            if i < init.len() {
                assert(init[i] == hist[i]);
                assert(is_update(prev[i], words[init[i] as int], score_spec(words[init[i] as int], answer), prev[i + 1]));
            }
        }
    }
}

/// Every sequence of guesses leads to some state.
proof fn lemma_state_after_exists(words: Seq<Word>, answer: Word, hist: Seq<usize>)
    ensures
        is_state_after(words, answer, hist, state_path_fn(words, answer, hist).last()),
{
    lemma_state_path_fn(words, answer, hist);
}

/// Each guess of `hist` was legal in hard mode when it was made.
pub open spec fn legal_history(words: Seq<Word>, answer: Word, hist: Seq<usize>) -> bool {
    forall|t: int| 0 <= t < hist.len() ==> #[trigger] allowed_after(words, answer, hist.take(t), hist[t])
}

proof fn lemma_filter_member(s: Seq<usize>, p: spec_fn(usize) -> bool, i: int)
    requires
        0 <= i < s.filter(p).len(),
    ensures
        p(s.filter(p)[i]),
        exists|j: int| 0 <= j < s.len() && s[j] == s.filter(p)[i],
    decreases s.len(),
{
    reveal_with_fuel(Seq::filter, 1);
    let sub = s.drop_last().filter(p);
    if i < sub.len() {
        lemma_filter_member(s.drop_last(), p, i);
        assert(s.filter(p)[i] == sub[i]);
        let j = choose|j: int| 0 <= j < s.drop_last().len() && s.drop_last()[j] == sub[i];
        assert(s[j] == s.filter(p)[i]);
    } else {
        assert(s.filter(p)[i] == s.last());
        assert(s[s.len() - 1] == s.filter(p)[i]);
    }
}

/// Every word still in the candidate list agrees with every guess made.
proof fn lemma_candidate_agrees(words: Seq<Word>, answer: Word, hist: Seq<usize>, i: int)
    requires
        0 <= i < trial_candidates(words, answer, hist).len(),
    ensures
        forall|k: int|
            0 <= k < hist.len() ==> #[trigger] agrees(
                words,
                answer,
                hist[k],
                trial_candidates(words, answer, hist)[i],
            ),
    decreases hist.len(),
{
    if hist.len() > 0 {
        let init = hist.drop_last();
        let prev = trial_candidates(words, answer, init);
        let pred = |c: usize| agrees(words, answer, hist.last(), c);
        lemma_filter_member(prev, pred, i);
        let c = trial_candidates(words, answer, hist)[i];
        let j = choose|j: int| 0 <= j < prev.len() && prev[j] == c;
        lemma_candidate_agrees(words, answer, init, j);
        assert forall|k: int| 0 <= k < hist.len() implies #[trigger] agrees(words, answer, hist[k], c) by {
            if k < init.len() {
                assert(init[k] == hist[k]);
                assert(agrees(words, answer, init[k], prev[j]));
            }
        }
    }
}

proof fn lemma_index_range_filter_bounded(n: nat, p: spec_fn(usize) -> bool, i: int)
    requires
        0 <= i < index_range(n).filter(p).len(),
    ensures
        index_range(n).filter(p)[i] < n,
{
    lemma_filter_bounded(index_range(n), p, n as int);
}

proof fn lemma_candidates_bounded(words: Seq<Word>, answer: Word, hist: Seq<usize>, i: int)
    requires
        0 <= i < trial_candidates(words, answer, hist).len(),
    ensures
        trial_candidates(words, answer, hist)[i] < words.len(),
    decreases hist.len(),
{
    if hist.len() > 0 {
        let init = hist.drop_last();
        let prev = trial_candidates(words, answer, init);
        let pred = |c: usize| agrees(words, answer, hist.last(), c);
        lemma_filter_member(prev, pred, i);
        let j = choose|j: int| 0 <= j < prev.len() && prev[j] == trial_candidates(words, answer, hist)[i];
        lemma_candidates_bounded(words, answer, init, j);
    }
}

/// The guesses of a synthetic game are positions of the list, and in hard
/// mode each was legal when it was made.
pub proof fn lemma_trial_run_legal(
    words: Seq<Word>,
    answer: Word,
    hard_mode: bool,
    hist: Seq<usize>,
    rng: u64,
    steps: nat,
)
    requires
        valid_history(words, hist),
        is_word(answer),
        hard_mode ==> legal_history(words, answer, hist),
    ensures
        valid_history(words, trial_run(words, answer, hard_mode, hist, rng, steps).0),
        hard_mode ==> legal_history(words, answer, trial_run(words, answer, hard_mode, hist, rng, steps).0),
    decreases steps,
{
    if steps > 0 {
        match next_guess(words, answer, hard_mode, hist, rng) {
            None => {},
            Some((g, r)) => {
                let cands = trial_candidates(words, answer, hist);
                let next = hist.push(g);
                if cands.len() == 1 {
                    assert(g == cands[0]);
                    lemma_candidates_bounded(words, answer, hist, 0);
                    if hard_mode {
                        lemma_candidate_agrees(words, answer, hist, 0);
                        lemma_state_after_exists(words, answer, hist);
                        let t = state_path_fn(words, answer, hist).last();
                        assert(is_word(words[g as int]));
                        assert forall|k: int| 0 <= k < hist.len() implies score_spec(words[#[trigger] hist[k] as int], words[g as int])
                            == score_spec(words[hist[k] as int], answer) by {
                            assert(agrees(words, answer, hist[k], g));
                        }
                        lemma_agreeing_word_allowed(words, answer, hist, t, words[g as int]);
                        assert(allowed_after(words, answer, hist, g));
                    }
                } else {
                    let pool = trial_pool(words, answer, hard_mode, hist);
                    let pred = |i: usize| (!hard_mode || allowed_after(words, answer, hist, i)) && !hist.contains(i);
                    let idx = ((r as usize) as int) % (pool.len() as int);
                    assert(g == pool[idx]);
                    lemma_filter_member(index_range(words.len()), pred, idx);
                    lemma_index_range_filter_bounded(words.len(), pred, idx);
                }
                assert(valid_history(words, next)) by {
                    assert forall|k: int| 0 <= k < next.len() implies #[trigger] next[k] < words.len() by {
                        if k < hist.len() {
                            assert(next[k] == hist[k]);
                        }
                    }
                }
                if hard_mode {
                    assert forall|t: int| 0 <= t < next.len() implies #[trigger] allowed_after(words, answer, next.take(t), next[t]) by {
                        if t < hist.len() {
                            assert(next.take(t) =~= hist.take(t));
                            assert(next[t] == hist[t]);
                            assert(allowed_after(words, answer, hist.take(t), hist[t]));
                        } else {
                            assert(next.take(t) =~= hist);
                        }
                    }
                }
                if words[g as int] != answer {
                    lemma_trial_run_legal(words, answer, hard_mode, next, r, (steps - 1) as nat);
                }
            },
        }
    }
}

/// A hidden game whose rows come from a sequence of hard-mode legal guesses
/// against `answer` is one that `answer` explains in hard mode.
pub proof fn lemma_legal_history_possible(
    words: Seq<Word>,
    answer: Word,
    hist: Seq<usize>,
    rows: Seq<Match>,
)
    requires
        valid_history(words, hist),
        legal_history(words, answer, hist),
        rows.len() == hist.len(),
        forall|t: int| 0 <= t < rows.len() ==> (#[trigger] rows[t])@ == score_spec(words[hist[t] as int], answer),
    ensures
        game_possible_spec(words, answer, rows),
{
    let p = state_path_fn(words, answer, hist);
    lemma_state_path_fn(words, answer, hist);
    assert forall|i: int| 0 <= i < rows.len() implies #[trigger] successor(words, answer, p[i], rows[i], p[i + 1]) by {
        let g = hist[i];
        assert(allowed_after(words, answer, hist.take(i), g));
        let t = choose|t: HardModeState|
            #[trigger] is_state_after(words, answer, hist.take(i), t) && hard_mode_allows(t, words[g as int]);
        let prefix = p.take(i + 1);
        assert forall|j: int| 0 <= j < hist.take(i).len() implies #[trigger] is_update(
            prefix[j],
            words[hist.take(i)[j] as int],
            score_spec(words[hist.take(i)[j] as int], answer),
            prefix[j + 1],
        ) by {
            assert(is_update(p[j], words[hist[j] as int], score_spec(words[hist[j] as int], answer), p[j + 1]));
        }
        assert(is_guess_path(words, answer, hist.take(i), prefix));
        assert(is_state_after(words, answer, hist.take(i), p[i]));
        lemma_state_after_unique(words, answer, hist.take(i), t, p[i]);
        assert(is_update(p[i], words[hist[i] as int], score_spec(words[hist[i] as int], answer), p[i + 1]));
        assert(hard_mode_allows(p[i], words[g as int]) && score_spec(words[g as int], answer) == rows[i]@
            && is_update(p[i], words[g as int], rows[i]@, p[i + 1]));
    }
    assert(is_state_path(words, answer, rows, p));
    assert(reachable(words, answer, rows, p.last()));
}

/// The tiles of a score row written as text read back as that row.
proof fn lemma_reads_row_text(sc: Seq<u8>, m: Match)
    requires
        is_row(sc),
        reads_as(match_text(sc), m),
    ensures
        m@ == sc,
{
    let t = match_text(sc);
    assert forall|i: int| 0 <= i < t.len() implies !is_white_space(#[trigger] t[i]) by {
        assert(sc[i] <= 2);
    }
    lemma_trim_no_space(t);
    assert forall|i: int| 0 <= i < WORD_LEN implies m[i] == sc[i] by {
        assert(tile_value(trim(t)[i]) == Some(m[i]));
        assert(sc[i] <= 2);
    }
    assert(m@ =~= sc);
}

/// In hard mode, the answer of every synthetic game explains, as a sequence
/// of hard-mode legal guesses, the score rows read back from the game's
/// texts; so the hard-mode pass keeps that answer.
pub proof fn lemma_generated_answer_survives(
    words: Seq<Word>,
    answer_idx: usize,
    rng: u64,
    trials: Seq<TrialGame>,
    games: Seq<Game>,
)
    requires
        forall|i: int| 0 <= i < words.len() ==> is_word(#[trigger] words[i]),
        answer_idx < words.len(),
        forall|t: int|
            0 <= t < trials.len() ==> describes_guesses(
                (#[trigger] trials[t]).guesses@,
                words,
                words[answer_idx as int],
                trial_run(
                    words,
                    words[answer_idx as int],
                    true,
                    Seq::empty(),
                    rng_after_trials(words, words[answer_idx as int], true, rng, t as nat),
                    MAX_GUESSES as nat,
                ).0,
            ),
        games_of_trials(trials, games),
    ensures
        solution_fits(words, games, answer_idx),
        hard_mode_spec(words, games).contains(answer_idx),
{
    let answer = words[answer_idx as int];
    assert forall|k: int| 0 <= k < games.len() implies #[trigger] game_possible_spec(
        words,
        words[answer_idx as int],
        games[k].matches@,
    ) by {
        let r0 = rng_after_trials(words, answer, true, rng, k as nat);
        let hist = trial_run(words, answer, true, Seq::empty(), r0, MAX_GUESSES as nat).0;
        assert(valid_history(words, Seq::<usize>::empty()));
        lemma_trial_run_legal(words, answer, true, Seq::empty(), r0, MAX_GUESSES as nat);
        assert(describes_guesses(trials[k].guesses@, words, answer, hist));
        let rows = games[k].matches@;
        assert forall|t: int| 0 <= t < rows.len() implies (#[trigger] rows[t])@ == score_spec(words[hist[t] as int], answer) by {
            assert(reads_as(trials[k].guesses@[t].match_text@, games[k].matches@[t]));
            assert(hist[t] < words.len());
            assert(is_row(score_spec(words[hist[t] as int], answer)));
            lemma_reads_row_text(score_spec(words[hist[t] as int], answer), rows[t]);
        }
        lemma_legal_history_possible(words, answer, hist, rows);
    }
    lemma_prefilter_keeps_hard_mode_result(words, games);
    let pred = |c: usize| solution_fits(words, games, c);
    assert(index_range(words.len())[answer_idx as int] == answer_idx);
    assert(pred(index_range(words.len())[answer_idx as int]));
    index_range(words.len()).filter_lemma(pred);
}

/// The answer agrees with every guess, so it is always among the
/// candidates.
proof fn lemma_answer_is_candidate(words: Seq<Word>, answer_idx: usize, hist: Seq<usize>)
    requires
        answer_idx < words.len(),
    ensures
        trial_candidates(words, words[answer_idx as int], hist).contains(answer_idx),
    decreases hist.len(),
{
    let answer = words[answer_idx as int];
    if hist.len() == 0 {
        assert(index_range(words.len())[answer_idx as int] == answer_idx);
    } else {
        let init = hist.drop_last();
        lemma_answer_is_candidate(words, answer_idx, init);
        let prev = trial_candidates(words, answer, init);
        let pred = |c: usize| agrees(words, answer, hist.last(), c);
        let j = choose|j: int| 0 <= j < prev.len() && prev[j] == answer_idx;
        assert(pred(prev[j]));
        prev.filter_lemma(pred);
    }
}

/// Every guess of a synthetic game leaves at least one word that agrees with
/// all rows so far: the answer.
pub proof fn lemma_remaining_positive(
    words: Seq<Word>,
    answer_idx: usize,
    hard_mode: bool,
    rng: u64,
    guesses: Seq<crate::trial::TrialGuess>,
)
    requires
        answer_idx < words.len(),
        describes_guesses(
            guesses,
            words,
            words[answer_idx as int],
            trial_run(words, words[answer_idx as int], hard_mode, Seq::empty(), rng, MAX_GUESSES as nat).0,
        ),
    ensures
        forall|t: int| 0 <= t < guesses.len() ==> (#[trigger] guesses[t]).remaining >= 1,
{
    let hist = trial_run(words, words[answer_idx as int], hard_mode, Seq::empty(), rng, MAX_GUESSES as nat).0;
    assert forall|t: int| 0 <= t < guesses.len() implies (#[trigger] guesses[t]).remaining >= 1 by {
        lemma_answer_is_candidate(words, answer_idx, hist.take(t + 1));
    }
}

/// The answer of every synthetic game, played in either mode, explains each
/// of the game's rows on its own: the independent-row pass keeps it.
pub proof fn lemma_generated_answer_passes_independent(
    words: Seq<Word>,
    answer_idx: usize,
    hard_mode: bool,
    rng: u64,
    trials: Seq<TrialGame>,
    games: Seq<Game>,
)
    requires
        forall|i: int| 0 <= i < words.len() ==> is_word(#[trigger] words[i]),
        answer_idx < words.len(),
        forall|t: int|
            0 <= t < trials.len() ==> describes_guesses(
                (#[trigger] trials[t]).guesses@,
                words,
                words[answer_idx as int],
                trial_run(
                    words,
                    words[answer_idx as int],
                    hard_mode,
                    Seq::empty(),
                    rng_after_trials(words, words[answer_idx as int], hard_mode, rng, t as nat),
                    MAX_GUESSES as nat,
                ).0,
            ),
        games_of_trials(trials, games),
    ensures
        fits_rows(words, flatten_spec(games), answer_idx as int),
        independent_spec(words, games).contains(answer_idx),
{
    let answer = words[answer_idx as int];
    let rows = flatten_spec(games);
    assert forall|r: int| 0 <= r < rows.len() implies #[trigger] row_explained(words, answer_idx as int, rows[r]) by {
        lemma_flatten_index(games, r);
        let (k, q) = choose|k: int, q: int|
            0 <= k < games.len() && 0 <= q < games[k].matches@.len() && rows[r]
                == #[trigger] games[k].matches@[q];
        let r0 = rng_after_trials(words, answer, hard_mode, rng, k as nat);
        let hist = trial_run(words, answer, hard_mode, Seq::empty(), r0, MAX_GUESSES as nat).0;
        assert(valid_history(words, Seq::<usize>::empty()));
        lemma_trial_run_legal(words, answer, hard_mode, Seq::empty(), r0, MAX_GUESSES as nat);
        assert(describes_guesses(trials[k].guesses@, words, answer, hist));
        assert(reads_as(trials[k].guesses@[q].match_text@, games[k].matches@[q]));
        assert(hist[q] < words.len());
        assert(is_row(score_spec(words[hist[q] as int], answer)));
        lemma_reads_row_text(score_spec(words[hist[q] as int], answer), games[k].matches@[q]);
        assert(score_spec(words[hist[q] as int], words[answer_idx as int]) == rows[r]@);
    }
    let pred = |i: usize| fits_rows(words, flatten_spec(games), i as int);
    assert(index_range(words.len())[answer_idx as int] == answer_idx);
    assert(pred(index_range(words.len())[answer_idx as int]));
    index_range(words.len()).filter_lemma(pred);
}

/// `hist` is a sequence of guesses from the list, each legal in hard mode
/// when made, whose scores against `answer` are the rows `rows`.
pub open spec fn legal_guesses_for(words: Seq<Word>, answer: Word, hist: Seq<usize>, rows: Seq<Match>) -> bool {
    &&& valid_history(words, hist)
    &&& legal_history(words, answer, hist)
    &&& rows.len() == hist.len()
    &&& forall|t: int| 0 <= t < rows.len() ==> (#[trigger] rows[t])@ == score_spec(words[hist[t] as int], answer)
}

/// The hard-mode pass keeps a word for a game exactly when some sequence of
/// hard-mode legal guesses from the list scores the game's rows against it.
pub proof fn lemma_hard_mode_possible_iff_legal_guesses(words: Seq<Word>, answer: Word, rows: Seq<Match>)
    requires
        forall|i: int| 0 <= i < words.len() ==> is_word(#[trigger] words[i]),
        words.len() <= usize::MAX,
    ensures
        game_possible_spec(words, answer, rows) <==> exists|hist: Seq<usize>|
            #[trigger] legal_guesses_for(words, answer, hist, rows),
{
    if exists|hist: Seq<usize>| #[trigger] legal_guesses_for(words, answer, hist, rows) {
        let hist = choose|hist: Seq<usize>| #[trigger] legal_guesses_for(words, answer, hist, rows);
        lemma_legal_history_possible(words, answer, hist, rows);
    }
    if game_possible_spec(words, answer, rows) {
        let last = choose|t: HardModeState| #[trigger] reachable(words, answer, rows, t);
        let p = choose|path: Seq<HardModeState>|
            #[trigger] is_state_path(words, answer, rows, path) && path.last() == last;
        let hist = Seq::new(
            rows.len(),
            |t: int|
                (choose|g: int|
                    0 <= g < words.len() && #[trigger] hard_mode_allows(p[t], words[g]) && score_spec(
                        words[g],
                        answer,
                    ) == rows[t]@ && is_update(p[t], words[g], rows[t]@, p[t + 1])) as usize,
        );
        assert forall|t: int| 0 <= t < rows.len() implies {
            &&& hist[t] < words.len()
            &&& hard_mode_allows(p[t], words[hist[t] as int])
            &&& score_spec(words[hist[t] as int], answer) == rows[t]@
            &&& is_update(p[t], words[hist[t] as int], rows[t]@, p[t + 1])
        } by {
            assert(successor(words, answer, p[t], rows[t], p[t + 1]));
            let g = choose|g: int|
                0 <= g < words.len() && #[trigger] hard_mode_allows(p[t], words[g]) && score_spec(
                    words[g],
                    answer,
                ) == rows[t]@ && is_update(p[t], words[g], rows[t]@, p[t + 1]);
            assert(hist[t] == g as usize);
            assert(hist[t] as int == g);
        }
        assert forall|k: int| 0 <= k < hist.len() implies #[trigger] hist[k] < words.len() by {}
        assert(is_guess_path(words, answer, hist, p));
        assert forall|t: int| 0 <= t < hist.len() implies #[trigger] allowed_after(
            words,
            answer,
            hist.take(t),
            hist[t],
        ) by {
            let prefix = p.take(t + 1);
            assert forall|j: int| 0 <= j < hist.take(t).len() implies #[trigger] is_update(
                prefix[j],
                words[hist.take(t)[j] as int],
                score_spec(words[hist.take(t)[j] as int], answer),
                prefix[j + 1],
            ) by {
                assert(is_update(p[j], words[hist[j] as int], score_spec(words[hist[j] as int], answer), p[j + 1]));
            }
            assert(is_guess_path(words, answer, hist.take(t), prefix));
            assert(is_state_after(words, answer, hist.take(t), p[t]));
        }
        assert(legal_guesses_for(words, answer, hist, rows));
    }
}


/// What a synthetic game shows: its answer text, and for each guess the
/// guessed word's text, the score row's text and the count of words left.
pub open spec fn trial_game_view(g: TrialGame) -> (Seq<char>, Seq<(Seq<char>, Seq<char>, usize)>) {
    (g.answer@, g.guesses@.map_values(|q: TrialGuess| (q.word@, q.match_text@, q.remaining)))
}

/// Only one position of a word list is the last that spells a given text.
proof fn lemma_last_spelled_unique(words: Seq<Word>, t: Seq<char>, i: usize, j: usize)
    requires
        is_last_spelled(words, t, i),
        is_last_spelled(words, t, j),
    ensures
        i == j,
{
    if i < j {
        assert(!spells(words[j as int], trim(t)));
    } else if j < i {
        assert(!spells(words[i as int], trim(t)));
    }
}

/// Synthetic games come one after another from one generator: the first
/// `m` of `n` generated games are the `m` games generated with the same
/// arguments.
pub proof fn lemma_generated_trials_prefix(
    words: Seq<Word>,
    answer: Seq<char>,
    n: nat,
    m: nat,
    seed: u64,
    hard_mode: bool,
    games: Seq<TrialGame>,
)
    requires
        generated_trials(words, answer, n, seed, hard_mode, games),
        m <= n,
    ensures
        generated_trials(words, answer, m, seed, hard_mode, games.take(m as int)),
{
    let i = choose|i: usize| #[trigger] is_last_spelled(words, answer, i) && games.len() == n && forall|t: int|
        0 <= t < n ==> {
            &&& (#[trigger] games[t]).answer@ == answer.map_values(|c: char| crate::text::ascii_lower(c))
            &&& describes_guesses(
                games[t].guesses@,
                words,
                words[i as int],
                trial_run(
                    words,
                    words[i as int],
                    hard_mode,
                    Seq::empty(),
                    rng_after_trials(words, words[i as int], hard_mode, if seed == 0 {
                        ZERO_SEED_STATE
                    } else {
                        seed
                    }, t as nat),
                    MAX_GUESSES as nat,
                ).0,
            )
        };
    let short = games.take(m as int);
    assert forall|t: int| 0 <= t < m implies {
        &&& (#[trigger] short[t]).answer@ == answer.map_values(|c: char| crate::text::ascii_lower(c))
        &&& describes_guesses(
            short[t].guesses@,
            words,
            words[i as int],
            trial_run(
                words,
                words[i as int],
                hard_mode,
                Seq::empty(),
                rng_after_trials(words, words[i as int], hard_mode, if seed == 0 {
                    ZERO_SEED_STATE
                } else {
                    seed
                }, t as nat),
                MAX_GUESSES as nat,
            ).0,
        )
    } by {
        assert(short[t] == games[t]);
    }
    assert(is_last_spelled(words, answer, i));
}

/// A seed of 0 gives the games that the seed `ZERO_SEED_STATE` gives.
pub proof fn lemma_generated_trials_zero_seed(
    words: Seq<Word>,
    answer: Seq<char>,
    n: nat,
    hard_mode: bool,
    games: Seq<TrialGame>,
)
    ensures
        generated_trials(words, answer, n, 0, hard_mode, games) == generated_trials(
            words,
            answer,
            n,
            ZERO_SEED_STATE,
            hard_mode,
            games,
        ),
{
}

/// Generating games is deterministic: two outcomes for the same arguments
/// show the same games.
pub proof fn lemma_generated_trials_determined(
    words: Seq<Word>,
    answer: Seq<char>,
    n: nat,
    seed: u64,
    hard_mode: bool,
    games1: Seq<TrialGame>,
    games2: Seq<TrialGame>,
)
    requires
        generated_trials(words, answer, n, seed, hard_mode, games1),
        generated_trials(words, answer, n, seed, hard_mode, games2),
    ensures
        games1.len() == games2.len(),
        forall|t: int| 0 <= t < games1.len() ==> trial_game_view(#[trigger] games1[t]) == trial_game_view(games2[t]),
{
    let rng0 = if seed == 0 {
        ZERO_SEED_STATE
    } else {
        seed
    };
    let i1 = choose|i: usize| #[trigger] is_last_spelled(words, answer, i) && games1.len() == n && forall|t: int|
        0 <= t < n ==> {
            &&& (#[trigger] games1[t]).answer@ == answer.map_values(|c: char| crate::text::ascii_lower(c))
            &&& describes_guesses(
                games1[t].guesses@,
                words,
                words[i as int],
                trial_run(
                    words,
                    words[i as int],
                    hard_mode,
                    Seq::empty(),
                    rng_after_trials(words, words[i as int], hard_mode, rng0, t as nat),
                    MAX_GUESSES as nat,
                ).0,
            )
        };
    let i2 = choose|i: usize| #[trigger] is_last_spelled(words, answer, i) && games2.len() == n && forall|t: int|
        0 <= t < n ==> {
            &&& (#[trigger] games2[t]).answer@ == answer.map_values(|c: char| crate::text::ascii_lower(c))
            &&& describes_guesses(
                games2[t].guesses@,
                words,
                words[i as int],
                trial_run(
                    words,
                    words[i as int],
                    hard_mode,
                    Seq::empty(),
                    rng_after_trials(words, words[i as int], hard_mode, rng0, t as nat),
                    MAX_GUESSES as nat,
                ).0,
            )
        };
    lemma_last_spelled_unique(words, answer, i1, i2);
    assert forall|t: int| 0 <= t < games1.len() implies trial_game_view(#[trigger] games1[t]) == trial_game_view(games2[t]) by {
        let a = words[i1 as int];
        let hist = trial_run(
            words,
            a,
            hard_mode,
            Seq::empty(),
            rng_after_trials(words, a, hard_mode, rng0, t as nat),
            MAX_GUESSES as nat,
        ).0;
        let o1 = games1[t].guesses@;
        let o2 = games2[t].guesses@;
        assert(describes_guesses(o1, words, a, hist));
        assert(describes_guesses(o2, words, a, hist));
        let f = |q: TrialGuess| (q.word@, q.match_text@, q.remaining);
        assert forall|r: int| 0 <= r < o1.len() implies f(#[trigger] o1[r]) == f(o2[r]) by {
            assert(o1[r].word@ == o2[r].word@);
        }
        assert(o1.map_values(f) =~= o2.map_values(f));
    }
}

/// A text reads as at most one score row.
proof fn lemma_reads_as_unique(t: Seq<char>, m1: Match, m2: Match)
    requires
        reads_as(t, m1),
        reads_as(t, m2),
    ensures
        m1 == m2,
{
    assert forall|i: int| 0 <= i < WORD_LEN implies m1[i] == m2[i] by {
        assert(tile_value(trim(t)[i]) == Some(m1[i]));
        assert(tile_value(trim(t)[i]) == Some(m2[i]));
    }
    assert(m1 =~= m2);
}

/// Two lists of games whose rows are the same, game by game.
pub open spec fn same_rows(g1: Seq<Game>, g2: Seq<Game>) -> bool {
    &&& g1.len() == g2.len()
    &&& forall|k: int| 0 <= k < g1.len() ==> (#[trigger] g1[k]).matches@ == g2[k].matches@
}

proof fn lemma_flatten_same_rows(g1: Seq<Game>, g2: Seq<Game>)
    requires
        same_rows(g1, g2),
    ensures
        flatten_spec(g1) == flatten_spec(g2),
    decreases g1.len(),
{
    if g1.len() > 0 {
        assert forall|k: int| 0 <= k < g1.len() - 1 implies (#[trigger] g1.drop_last()[k]).matches@
            == g2.drop_last()[k].matches@ by {
            assert(g1.drop_last()[k] == g1[k]);
            assert(g2.drop_last()[k] == g2[k]);
        }
        lemma_flatten_same_rows(g1.drop_last(), g2.drop_last());
        assert(g1.last().matches@ == g2.last().matches@);
    }
}

/// The synthetic games `a` and `b` show the same score-row texts, game by
/// game and guess by guess.
pub open spec fn same_row_texts(a: Seq<TrialGame>, b: Seq<TrialGame>) -> bool {
    &&& a.len() == b.len()
    &&& forall|k: int| 0 <= k < a.len() ==> (#[trigger] a[k]).guesses@.len() == b[k].guesses@.len()
    &&& forall|k: int, r: int|
        0 <= k < a.len() && 0 <= r < a[k].guesses@.len() ==> (#[trigger] a[k].guesses@[r]).match_text@
            == b[k].guesses@[r].match_text@
}

proof fn lemma_trial_texts_same(a: Seq<TrialGame>, b: Seq<TrialGame>)
    requires
        same_row_texts(a, b),
    ensures
        trial_texts(a) == trial_texts(b),
    decreases a.len(),
{
    if a.len() > 0 {
        let (a0, b0) = (a.drop_last(), b.drop_last());
        assert forall|k: int| 0 <= k < a0.len() implies (#[trigger] a0[k]).guesses@.len() == b0[k].guesses@.len() by {
            assert(a0[k] == a[k] && b0[k] == b[k]);
        }
        assert forall|k: int, r: int| 0 <= k < a0.len() && 0 <= r < a0[k].guesses@.len() implies (
        #[trigger] a0[k].guesses@[r]).match_text@ == b0[k].guesses@[r].match_text@ by {
            assert(a0[k] == a[k] && b0[k] == b[k]);
        }
        lemma_trial_texts_same(a0, b0);
        let k = a.len() - 1;
        let f = |g: TrialGuess| g.match_text@;
        assert forall|r: int| 0 <= r < a.last().guesses@.len() implies a.last().guesses@.map_values(f)[r]
            == b.last().guesses@.map_values(f)[r] by {
            assert(a[k].guesses@[r].match_text@ == b[k].guesses@[r].match_text@);
        }
        assert(a.last().guesses@.map_values(f) =~= b.last().guesses@.map_values(f));
    }
}

/// The search over synthetic games sees only the score rows: games whose
/// row texts are the same, trial by trial, are refused for the same text
/// and otherwise read as the same hidden games, which give the same words.
pub proof fn lemma_trials_solver_sees_only_rows(
    words: Seq<Word>,
    a: Seq<TrialGame>,
    b: Seq<TrialGame>,
    ga: Seq<Game>,
    gb: Seq<Game>,
)
    requires
        same_row_texts(a, b),
    ensures
        trial_texts(a) == trial_texts(b),
        forall|g: Seq<Game>| games_of_trials(a, g) <==> games_of_trials(b, g),
        games_of_trials(a, ga) && games_of_trials(b, gb) ==> hard_mode_spec(words, ga) == hard_mode_spec(words, gb),
{
    lemma_trial_texts_same(a, b);
    if games_of_trials(a, ga) && games_of_trials(b, gb) {
        assert forall|k: int| 0 <= k < ga.len() implies (#[trigger] ga[k]).matches@ == gb[k].matches@ by {
            assert forall|r: int| 0 <= r < ga[k].matches@.len() implies ga[k].matches@[r] == gb[k].matches@[r] by {
                assert(reads_as(a[k].guesses@[r].match_text@, ga[k].matches@[r]));
                assert(reads_as(b[k].guesses@[r].match_text@, gb[k].matches@[r]));
                lemma_reads_as_unique(a[k].guesses@[r].match_text@, ga[k].matches@[r], gb[k].matches@[r]);
            }
            assert(ga[k].matches@ =~= gb[k].matches@);
        }
        lemma_flatten_same_rows(ga, gb);
        let n = words.len();
        let pa = |i: usize| fits_rows(words, flatten_spec(ga), i as int);
        let pb = |i: usize| fits_rows(words, flatten_spec(gb), i as int);
        lemma_filter_congruent(index_range(n), pa, pb);
        assert(independent_spec(words, ga) == independent_spec(words, gb));
        let s = independent_spec(words, ga);
        let fa = |c: usize| solution_fits(words, ga, c);
        let fb = |c: usize| solution_fits(words, gb, c);
        assert forall|i: int| 0 <= i < s.len() implies fa(#[trigger] s[i]) == fb(s[i]) by {
            let c = s[i];
            if solution_fits(words, ga, c) {
                assert forall|k: int| 0 <= k < gb.len() implies #[trigger] game_possible_spec(words, words[c as int], gb[k].matches@) by {
                    assert(game_possible_spec(words, words[c as int], ga[k].matches@));
                }
            }
            if solution_fits(words, gb, c) {
                assert forall|k: int| 0 <= k < ga.len() implies #[trigger] game_possible_spec(words, words[c as int], ga[k].matches@) by {
                    assert(game_possible_spec(words, words[c as int], gb[k].matches@));
                }
            }
        }
        lemma_filter_congruent(s, fa, fb);
    }
}


/// Number of rows of all the games together.
pub open spec fn row_total(games: Seq<Game>) -> nat
    decreases games.len(),
{
    if games.len() == 0 {
        0
    } else {
        row_total(games.drop_last()) + games.last().matches@.len()
    }
}

proof fn lemma_row_total_take(games: Seq<Game>, k: int)
    requires
        0 <= k < games.len(),
    ensures
        row_total(games.take(k + 1)) == row_total(games.take(k)) + games[k].matches@.len(),
        row_total(games.take(k + 1)) <= row_total(games),
    decreases games.len(),
{
    assert(games.take(k + 1).drop_last() =~= games.take(k));
    if k + 1 < games.len() {
        lemma_row_total_take(games.drop_last(), k);
        assert(games.drop_last().take(k + 1) =~= games.take(k + 1));
        assert(games.drop_last().take(k) =~= games.take(k));
    } else {
        assert(games.take(k + 1) =~= games);
    }
}

/// The rows of all games put together hold every game's rows, game after
/// game and in their order: as many rows as all games hold, with row `q` of
/// game `k` after the rows of the games before it.
pub proof fn lemma_flatten_holds_every_row(games: Seq<Game>, k: int, q: int)
    requires
        0 <= k < games.len(),
        0 <= q < games[k].matches@.len(),
    ensures
        flatten_spec(games).len() == row_total(games),
        row_total(games.take(k)) + q < flatten_spec(games).len(),
        flatten_spec(games)[row_total(games.take(k)) + q] == games[k].matches@[q],
        flatten_spec(games).contains(games[k].matches@[q]),
    decreases games.len(),
{
    lemma_flatten_len(games);
    lemma_row_total_take(games, k);
    let init = games.drop_last();
    if k + 1 < games.len() {
        lemma_flatten_holds_every_row(init, k, q);
        assert(init[k] == games[k]);
        assert(init.take(k) =~= games.take(k));
        assert(flatten_spec(games)[row_total(games.take(k)) + q] == flatten_spec(init)[row_total(init.take(k)) + q]);
    } else {
        lemma_flatten_len(init);
        assert(games.take(k) =~= init);
    }
    assert(flatten_spec(games)[row_total(games.take(k)) + q] == games[k].matches@[q]);
}

proof fn lemma_flatten_len(games: Seq<Game>)
    ensures
        flatten_spec(games).len() == row_total(games),
    decreases games.len(),
{
    if games.len() > 0 {
        lemma_flatten_len(games.drop_last());
    }
}

/// The independent pass keeps exactly the positions of the words that
/// explain every row of every game, each row on its own with some guess from
/// the list.
pub proof fn lemma_independent_keeps_words_explaining_all_rows(words: Seq<Word>, games: Seq<Game>, i: usize)
    ensures
        independent_spec(words, games).contains(i) <==> (i < words.len() && forall|k: int, q: int|
            0 <= k < games.len() && 0 <= q < games[k].matches@.len() ==> row_explained(
                words,
                i as int,
                #[trigger] games[k].matches@[q],
            )),
{
    broadcast use vstd::seq_lib::group_filter_ensures;

    let rows = flatten_spec(games);
    let p = |c: usize| fits_rows(words, rows, c as int);
    let all = index_range(words.len());
    let every = i < words.len() && forall|k: int, q: int|
        0 <= k < games.len() && 0 <= q < games[k].matches@.len() ==> row_explained(
            words,
            i as int,
            #[trigger] games[k].matches@[q],
        );
    if independent_spec(words, games).contains(i) {
        let j = choose|j: int| 0 <= j < all.filter(p).len() && all.filter(p)[j] == i;
        assert(p(all.filter(p)[j]));
        all.lemma_filter_contains_rev(p, i);
        let x = choose|x: int| 0 <= x < all.len() && all[x] == i;
        assert(i < words.len());
        assert forall|k: int, q: int| 0 <= k < games.len() && 0 <= q < games[k].matches@.len() implies row_explained(
            words,
            i as int,
            #[trigger] games[k].matches@[q],
        ) by {
            lemma_flatten_holds_every_row(games, k, q);
            let r = row_total(games.take(k)) + q;
            assert(row_explained(words, i as int, rows[r]));
        }
    }
    if every {
        assert forall|r: int| 0 <= r < rows.len() implies #[trigger] row_explained(words, i as int, rows[r]) by {
            lemma_flatten_index(games, r);
            let (k, q) = choose|k: int, q: int|
                0 <= k < games.len() && 0 <= q < games[k].matches@.len() && rows[r] == #[trigger] games[k].matches@[q];
            assert(row_explained(words, i as int, games[k].matches@[q]));
        }
        assert(all[i as int] == i);
        assert(p(all[i as int]));
    }
}

/// A synthetic game guesses at most `steps` more times and never after the
/// answer, and stops short of its last step only at the answer or when no
/// guess is left: no word agrees with the rows so far, or several do and
/// the pool of guesses is empty.
pub proof fn lemma_trial_run_stops(
    words: Seq<Word>,
    answer: Word,
    hard_mode: bool,
    hist: Seq<usize>,
    rng: u64,
    steps: nat,
)
    ensures
        trial_run(words, answer, hard_mode, hist, rng, steps).0.len() <= hist.len() + steps,
        trial_run(words, answer, hard_mode, hist, rng, steps).0.len() >= hist.len(),
        trial_run(words, answer, hard_mode, hist, rng, steps).0.subrange(0, hist.len() as int) == hist,
        forall|k: int|
            hist.len() <= k < trial_run(words, answer, hard_mode, hist, rng, steps).0.len() - 1
                ==> words[#[trigger] trial_run(words, answer, hard_mode, hist, rng, steps).0[k] as int]
                != answer,
        trial_run(words, answer, hard_mode, hist, rng, steps).0.len() < hist.len() + steps ==> {
            let out = trial_run(words, answer, hard_mode, hist, rng, steps).0;
            ||| (out.len() > hist.len() && words[out.last() as int] == answer)
            ||| trial_candidates(words, answer, out).len() == 0
            ||| (trial_candidates(words, answer, out).len() > 1 && trial_pool(words, answer, hard_mode, out).len() == 0)
        },
    decreases steps,
{
    if steps > 0 {
        match next_guess(words, answer, hard_mode, hist, rng) {
            None => {},
            Some((g, r)) => {
                let h2 = hist.push(g);
                if words[g as int] == answer {
                    assert(h2.subrange(0, hist.len() as int) =~= hist);
                } else {
                    lemma_trial_run_stops(words, answer, hard_mode, h2, r, (steps - 1) as nat);
                    let out = trial_run(words, answer, hard_mode, hist, rng, steps).0;
                    assert(out == trial_run(words, answer, hard_mode, h2, r, (steps - 1) as nat).0);
                    assert(out.subrange(0, hist.len() as int) =~= out.subrange(0, h2.len() as int).subrange(0, hist.len() as int));
                    assert(out[hist.len() as int] == g) by {
                        assert(out.subrange(0, h2.len() as int)[hist.len() as int] == h2[hist.len() as int]);
                    }
                }
            },
        }
    } else {
        assert(hist.subrange(0, hist.len() as int) =~= hist);
    }
    if steps == 0 || next_guess(words, answer, hard_mode, hist, rng) is None {
        assert(hist.subrange(0, hist.len() as int) =~= hist);
    }
}

/// A synthetic game makes at most six guesses, and fewer only when it has
/// found the answer or no guess is left.
pub proof fn lemma_trial_game_stops(words: Seq<Word>, answer: Word, hard_mode: bool, rng: u64)
    ensures
        trial_run(words, answer, hard_mode, Seq::empty(), rng, MAX_GUESSES as nat).0.len() <= 6,
        trial_run(words, answer, hard_mode, Seq::empty(), rng, MAX_GUESSES as nat).0.len() < 6 ==> {
            let out = trial_run(words, answer, hard_mode, Seq::empty(), rng, MAX_GUESSES as nat).0;
            ||| (out.len() > 0 && words[out.last() as int] == answer)
            ||| trial_candidates(words, answer, out).len() == 0
            ||| (trial_candidates(words, answer, out).len() > 1 && trial_pool(words, answer, hard_mode, out).len() == 0)
        },
{
    lemma_trial_run_stops(words, answer, hard_mode, Seq::empty(), rng, MAX_GUESSES as nat);
}

/// A text is a word exactly when it has five characters, each an ASCII
/// letter of either case.
pub proof fn lemma_word_text_is_five_ascii_letters(s: Seq<char>)
    ensures
        is_word_text(s) <==> (s.len() == 5 && forall|i: int|
            0 <= i < 5 ==> ('a' <= #[trigger] s[i] && s[i] <= 'z') || ('A' <= s[i] && s[i] <= 'Z')),
{
    if all_letters(s) {
        lemma_utf8_len_of_letters(s);
    }
    if s.len() == 5 && forall|i: int|
        0 <= i < 5 ==> ('a' <= #[trigger] s[i] && s[i] <= 'z') || ('A' <= s[i] && s[i] <= 'Z') {
        assert(all_letters(s));
    }
}

/// Five ASCII letters spell the word whose letters are their places in the
/// alphabet, whatever their case.
pub proof fn lemma_letters_spell_alphabet_places(s: Seq<char>, w: Word)
    requires
        s.len() == 5,
        forall|i: int|
            0 <= i < 5 ==> (('a' <= #[trigger] s[i] && s[i] <= 'z') && w[i] as u32 == (s[i] as u32) - 97)
                || (('A' <= s[i] && s[i] <= 'Z') && w[i] as u32 == (s[i] as u32) - 65),
    ensures
        is_word_text(s),
        spells(w, s),
        is_word(w),
{
    lemma_word_text_is_five_ascii_letters(s);
    assert forall|i: int| 0 <= i < WORD_LEN implies #[trigger] w[i] == letter_value(s[i]) && w[i] < 26 by {
        let c = s[i];
        assert(('a' <= c && c <= 'z') || ('A' <= c && c <= 'Z'));
    }
}

/// The characters with Unicode's `White_Space` property, as the Unicode
/// character database lists them.
pub open spec fn unicode_white_space(c: char) -> bool {
    ||| c == '\t'
    ||| c == '\n'
    ||| c == '\u{b}'
    ||| c == '\u{c}'
    ||| c == '\r'
    ||| c == ' '
    ||| c == '\u{85}'
    ||| c == '\u{a0}'
    ||| c == '\u{1680}'
    ||| ('\u{2000}' <= c && c <= '\u{200a}')
    ||| c == '\u{2028}'
    ||| c == '\u{2029}'
    ||| c == '\u{202f}'
    ||| c == '\u{205f}'
    ||| c == '\u{3000}'
}

proof fn lemma_trim_start_cut(s: Seq<char>) -> (i: int)
    ensures
        0 <= i <= s.len(),
        trim_start(s) == s.subrange(i, s.len() as int),
        forall|k: int| 0 <= k < i ==> unicode_white_space(#[trigger] s[k]),
        i < s.len() ==> !unicode_white_space(s[i]),
    decreases s.len(),
{
    if s.len() > 0 && is_white_space(s[0]) {
        let j = lemma_trim_start_cut(s.drop_first());
        assert(s.drop_first().subrange(j, s.len() - 1) =~= s.subrange(j + 1, s.len() as int));
        assert forall|k: int| 0 <= k < j + 1 implies unicode_white_space(#[trigger] s[k]) by {
            if k > 0 {
                assert(s[k] == s.drop_first()[k - 1]);
            }
        }
        j + 1
    } else {
        assert(s.subrange(0, s.len() as int) =~= s);
        0
    }
}

proof fn lemma_trim_end_cut(s: Seq<char>) -> (j: int)
    ensures
        0 <= j <= s.len(),
        trim_end(s) == s.subrange(0, j),
        forall|k: int| j <= k < s.len() ==> unicode_white_space(#[trigger] s[k]),
        j > 0 ==> !unicode_white_space(s[j - 1]),
    decreases s.len(),
{
    if s.len() > 0 && is_white_space(s.last()) {
        let j = lemma_trim_end_cut(s.drop_last());
        assert(s.drop_last().subrange(0, j) =~= s.subrange(0, j));
        assert forall|k: int| j <= k < s.len() implies unicode_white_space(#[trigger] s[k]) by {
            if k < s.len() - 1 {
                assert(s[k] == s.drop_last()[k]);
            }
        }
        j
    } else {
        assert(s.subrange(0, s.len() as int) =~= s);
        s.len() as int
    }
}

/// Trimming takes off exactly the white space at both ends: what is left is
/// a stretch of the text that neither starts nor ends with white space, and
/// everything before and after it is white space.
pub proof fn lemma_trim_removes_white_space_ends(s: Seq<char>)
    ensures
        exists|i: int, j: int|
            {
                &&& 0 <= i <= j <= s.len()
                &&& #[trigger] s.subrange(i, j) == trim(s)
                &&& forall|k: int| 0 <= k < i ==> unicode_white_space(#[trigger] s[k])
                &&& forall|k: int| j <= k < s.len() ==> unicode_white_space(#[trigger] s[k])
                &&& i < j ==> !unicode_white_space(s[i]) && !unicode_white_space(s[j - 1])
            },
{
    let i = lemma_trim_start_cut(s);
    let rest = s.subrange(i, s.len() as int);
    let j = lemma_trim_end_cut(rest);
    assert(rest.subrange(0, j) =~= s.subrange(i, i + j));
    assert forall|k: int| i + j <= k < s.len() implies unicode_white_space(#[trigger] s[k]) by {
        assert(s[k] == rest[k - i]);
    }
    if j > 0 {
        assert(s[i] == rest[0]);
        assert(s[i + j - 1] == rest[j - 1]);
    }
    assert(s.subrange(i, i + j) == trim(s));
}

} // verus!
