//! Wordle scoring of a guess against a solution.
use vstd::prelude::*;

use crate::word::{
    count_prefix, counts_of, is_match, is_word, letter_count, match_code, code_prefix, LetterCounts,
    Match, Word, ALPHABET, BLACK, GREEN, WORD_LEN, YELLOW,
};

verus! {

/// Positions `j < n` where guess and solution both hold the letter `c`.
pub open spec fn green_prefix(guess: Word, solution: Word, c: u8, n: int) -> nat
    decreases n,
{
    if n <= 0 {
        0
    } else {
        green_prefix(guess, solution, c, n - 1) + if guess[n - 1] == c && solution[n - 1] == c {
            1nat
        } else {
            0nat
        }
    }
}

/// Positions `j < n` where the guess holds `c` but the solution holds another
/// letter.
pub open spec fn misplaced_prefix(guess: Word, solution: Word, c: u8, n: int) -> nat
    decreases n,
{
    if n <= 0 {
        0
    } else {
        misplaced_prefix(guess, solution, c, n - 1) + if guess[n - 1] == c && solution[n - 1]
            != c {
            1nat
        } else {
            0nat
        }
    }
}

/// The tile at position `i` when `guess` is played against `solution`:
/// green where the letters agree; otherwise yellow while the solution still
/// has copies of the letter that neither a green tile nor an earlier yellow
/// tile has used, and black after that.
pub open spec fn tile_spec(guess: Word, solution: Word, i: int) -> u8 {
    let c = guess[i];
    if c == solution[i] {
        GREEN
    } else if letter_count(solution, c) > green_prefix(guess, solution, c, WORD_LEN as int)
        + misplaced_prefix(guess, solution, c, i) {
        YELLOW
    } else {
        BLACK
    }
}

/// The score row of `guess` against `solution`.
pub open spec fn score_spec(guess: Word, solution: Word) -> Seq<u8> {
    Seq::new(WORD_LEN as nat, |i: int| tile_spec(guess, solution, i))
}

/// The tile at position `i` when the solution's letter counts are taken from
/// `counts`: green where the letters agree; otherwise yellow while the count
/// of the letter, less its green tiles (or zero), exceeds the earlier
/// non-green tiles of the letter.
pub open spec fn tile_with_counts(guess: Word, solution: Word, counts: LetterCounts, i: int) -> u8 {
    let c = guess[i];
    let greens = green_prefix(guess, solution, c, WORD_LEN as int);
    let spare = if counts[c as int] >= greens {
        counts[c as int] - greens
    } else {
        0
    };
    if c == solution[i] {
        GREEN
    } else if spare > misplaced_prefix(guess, solution, c, i) {
        YELLOW
    } else {
        BLACK
    }
}

/// The row that scoring gives with the letter counts `counts`.
pub open spec fn score_with_counts(guess: Word, solution: Word, counts: LetterCounts) -> Seq<u8> {
    Seq::new(WORD_LEN as nat, |i: int| tile_with_counts(guess, solution, counts, i))
}

/// With the solution's true letter counts, the row is the Wordle score.
pub proof fn lemma_score_with_true_counts(guess: Word, solution: Word, counts: LetterCounts)
    requires
        is_word(guess),
        counts_of(counts, solution),
    ensures
        score_with_counts(guess, solution, counts) == score_spec(guess, solution),
{
    assert forall|i: int| 0 <= i < WORD_LEN implies tile_with_counts(guess, solution, counts, i)
        == tile_spec(guess, solution, i) by {
        let c = guess[i];
        assert(c < ALPHABET);
        lemma_green_prefix_le_count(guess, solution, c, WORD_LEN as int);
    }
    assert(score_with_counts(guess, solution, counts) =~= score_spec(guess, solution));
}

proof fn lemma_green_prefix_le_count(guess: Word, solution: Word, c: u8, n: int)
    requires
        0 <= n <= WORD_LEN,
    ensures
        green_prefix(guess, solution, c, n) <= count_prefix(solution@, c, n),
        green_prefix(guess, solution, c, n) <= n,
    decreases n,
{
    if n > 0 {
        lemma_green_prefix_le_count(guess, solution, c, n - 1);
    }
}

proof fn lemma_misplaced_prefix_bound(guess: Word, solution: Word, c: u8, n: int)
    requires
        0 <= n <= WORD_LEN,
    ensures
        misplaced_prefix(guess, solution, c, n) <= n,
    decreases n,
{
    if n > 0 {
        lemma_misplaced_prefix_bound(guess, solution, c, n - 1);
    }
}

/// Scores `guess` against `solution` as Wordle does, given the solution's
/// letter counts.
pub fn score_match(guess: &Word, solution: &Word, solution_counts: &LetterCounts) -> (row: Match)
    requires
        is_word(*guess),
    ensures
        row@ == score_with_counts(*guess, *solution, *solution_counts),
        counts_of(*solution_counts, *solution) ==> row@ == score_spec(*guess, *solution),
        is_match(row),
{
    let mut result: Match = [BLACK; WORD_LEN];
    let mut green_counts: LetterCounts = [0u8; ALPHABET];

    for idx in 0..WORD_LEN
        invariant
            is_word(*guess),
            forall|k: int|
                0 <= k < idx ==> #[trigger] result[k] == if guess[k] == solution[k] {
                    GREEN
                } else {
                    BLACK
                },
            forall|k: int| idx <= k < WORD_LEN ==> #[trigger] result[k] == BLACK,
            forall|c: int|
                0 <= c < ALPHABET ==> #[trigger] green_counts[c] == green_prefix(
                    *guess,
                    *solution,
                    c as u8,
                    idx as int,
                ),
    {
        if guess[idx] == solution[idx] {
            result[idx] = GREEN;
            let letter = guess[idx];
            proof {
                lemma_green_prefix_le_count(*guess, *solution, letter, idx as int);
            }
            green_counts[letter as usize] = green_counts[letter as usize] + 1;
        }
    }

    for idx in 0..WORD_LEN
        invariant
            is_word(*guess),
            forall|c: int|
                0 <= c < ALPHABET ==> #[trigger] green_counts[c] == green_prefix(
                    *guess,
                    *solution,
                    c as u8,
                    WORD_LEN as int,
                ),
            forall|k: int|
                0 <= k < idx ==> #[trigger] result[k] == tile_with_counts(
                    *guess,
                    *solution,
                    *solution_counts,
                    k,
                ),
            forall|k: int|
                idx <= k < WORD_LEN ==> #[trigger] result[k] == if guess[k] == solution[k] {
                    GREEN
                } else {
                    BLACK
                },
    {
        if result[idx] != GREEN {
            let letter = guess[idx];
            let letter_idx = letter as usize;
            let remaining_count = solution_counts[letter_idx].saturating_sub(
                green_counts[letter_idx],
            );
            let mut used_before: u8 = 0;
            for prev in 0..idx
                invariant
                    0 <= idx < WORD_LEN,
                    used_before == misplaced_prefix(*guess, *solution, letter, prev as int),
                    forall|k: int|
                        0 <= k < idx ==> #[trigger] result[k] == tile_with_counts(
                            *guess,
                            *solution,
                            *solution_counts,
                            k,
                        ),
            {
                proof {
                    lemma_misplaced_prefix_bound(*guess, *solution, letter, prev as int);
                }
                if guess[prev] == letter && result[prev] != GREEN {
                    used_before = used_before + 1;
                }
            }
            if remaining_count > used_before {
                result[idx] = YELLOW;
            }
        }
    }
    assert(result@ =~= score_with_counts(*guess, *solution, *solution_counts));
    proof {
        if counts_of(*solution_counts, *solution) {
            lemma_score_with_true_counts(*guess, *solution, *solution_counts);
        }
    }
    result
}

/// The code of the score row of `guess` against `solution`.
pub fn score_code(guess: &Word, solution: &Word, solution_counts: &LetterCounts) -> (code: u8)
    requires
        is_word(*guess),
    ensures
        code == code_prefix(score_with_counts(*guess, *solution, *solution_counts), WORD_LEN as int),
        counts_of(*solution_counts, *solution) ==> code == code_prefix(
            score_spec(*guess, *solution),
            WORD_LEN as int,
        ),
{
    let row = score_match(guess, solution, solution_counts);
    match_code(&row)
}

} // verus!
