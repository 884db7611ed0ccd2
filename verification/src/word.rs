//! Words, score rows and the small encodings built on them.
use vstd::prelude::*;

verus! {

/// Tile value of a letter that is absent from the solution.
pub const BLACK: u8 = 0;

/// Tile value of a letter that is present at another position.
pub const YELLOW: u8 = 1;

/// Tile value of a letter at its correct position.
pub const GREEN: u8 = 2;

/// Number of letters in a word and tiles in a score row.
pub const WORD_LEN: usize = 5;

/// Number of letters in the alphabet; letters are `0..ALPHABET` (`a` is 0).
pub const ALPHABET: usize = 26;

/// A word as letter numbers, `a` = 0 … `z` = 25.
pub type Word = [u8; WORD_LEN];

/// A score row: one tile value per position.
pub type Match = [u8; WORD_LEN];

/// Per-letter occurrence counts of a word.
pub type LetterCounts = [u8; ALPHABET];

/// Every letter of `w` is one of the 26 letters.
pub open spec fn is_word(w: Word) -> bool {
    forall|i: int| 0 <= i < WORD_LEN ==> #[trigger] w[i] < ALPHABET
}

/// Every tile of `m` is black, yellow or green.
pub open spec fn is_match(m: Match) -> bool {
    forall|i: int| 0 <= i < WORD_LEN ==> #[trigger] m[i] <= GREEN
}

/// Number of positions `j < n` of `w` holding `c`.
pub open spec fn count_prefix(w: Seq<u8>, c: u8, n: int) -> nat
    decreases n,
{
    if n <= 0 {
        0
    } else {
        count_prefix(w, c, n - 1) + if w[n - 1] == c {
            1nat
        } else {
            0nat
        }
    }
}

/// Number of occurrences of the letter `c` in `w`.
pub open spec fn letter_count(w: Word, c: u8) -> nat {
    count_prefix(w@, c, WORD_LEN as int)
}

/// `counts` holds, for each letter, how often it occurs in `w`.
pub open spec fn counts_of(counts: LetterCounts, w: Word) -> bool {
    forall|c: int| 0 <= c < ALPHABET ==> #[trigger] counts[c] == letter_count(w, c as u8)
}

pub proof fn lemma_count_prefix_bound(w: Seq<u8>, c: u8, n: int)
    ensures
        count_prefix(w, c, n) <= if n < 0 {
            0
        } else {
            n
        },
    decreases n,
{
    if n > 0 {
        lemma_count_prefix_bound(w, c, n - 1);
    }
}

/// Counts how often each letter occurs in `word`.
pub fn count_letters(word: &Word) -> (counts: LetterCounts)
    requires
        is_word(*word),
    ensures
        counts_of(counts, *word),
{
    let mut counts: LetterCounts = [0u8; ALPHABET];
    for i in 0..WORD_LEN
        invariant
            is_word(*word),
            forall|c: int| 0 <= c < ALPHABET ==> #[trigger] counts[c] == count_prefix(word@, c as u8, i as int),
    {
        let letter = word[i];
        proof {
            lemma_count_prefix_bound(word@, letter, i as int);
        }
        counts[letter as usize] = counts[letter as usize] + 1;
    }
    counts
}

/// Base-26 value of the letters of `w`, first letter most significant.
pub open spec fn key_prefix(w: Seq<u8>, n: int) -> int
    decreases n,
{
    if n <= 0 {
        0
    } else {
        key_prefix(w, n - 1) * 26 + w[n - 1]
    }
}

/// The lookup key of a word.
pub open spec fn word_key_spec(w: Word) -> int {
    key_prefix(w@, WORD_LEN as int)
}

proof fn lemma_key_prefix_bound(w: Word, n: int)
    requires
        is_word(w),
        0 <= n <= WORD_LEN,
    ensures
        0 <= key_prefix(w@, n),
        n == 0 ==> key_prefix(w@, n) < 1,
        n == 1 ==> key_prefix(w@, n) < 26,
        n == 2 ==> key_prefix(w@, n) < 676,
        n == 3 ==> key_prefix(w@, n) < 17576,
        n == 4 ==> key_prefix(w@, n) < 456976,
        n == 5 ==> key_prefix(w@, n) < 11881376,
    decreases n,
{
    if n > 0 {
        lemma_key_prefix_bound(w, n - 1);
        assert(w[n - 1] < 26);
    }
}

/// Key of a word under which the dictionary finds it: its letters read as a
/// base-26 number.
pub fn word_key(word: &Word) -> (key: u32)
    requires
        is_word(*word),
    ensures
        key == word_key_spec(*word),
        key < 11881376,
{
    let mut acc: u32 = 0;
    for i in 0..WORD_LEN
        invariant
            is_word(*word),
            acc == key_prefix(word@, i as int),
    {
        proof {
            lemma_key_prefix_bound(*word, i as int);
            lemma_key_prefix_bound(*word, i + 1);
        }
        acc = acc * 26 + word[i] as u32;
    }
    proof {
        lemma_key_prefix_bound(*word, WORD_LEN as int);
    }
    acc
}

proof fn lemma_key_prefix_injective(a: Word, b: Word, n: int)
    requires
        is_word(a),
        is_word(b),
        0 <= n <= WORD_LEN,
        key_prefix(a@, n) == key_prefix(b@, n),
    ensures
        forall|i: int| 0 <= i < n ==> a[i] == b[i],
    decreases n,
{
    if n > 0 {
        lemma_key_prefix_bound(a, n - 1);
        lemma_key_prefix_bound(b, n - 1);
        let x = key_prefix(a@, n - 1);
        let y = key_prefix(b@, n - 1);
        assert(a[n - 1] < 26 && b[n - 1] < 26);
        assert(x * 26 + a[n - 1] == y * 26 + b[n - 1]);
        assert(x == y && a[n - 1] == b[n - 1]) by (nonlinear_arith)
            requires
                x * 26 + a[n - 1] == y * 26 + b[n - 1],
                0 <= a[n - 1] < 26,
                0 <= b[n - 1] < 26,
                x >= 0,
                y >= 0,
        ;
        lemma_key_prefix_injective(a, b, n - 1);
    }
}

/// Two words with the same key are the same word.
pub proof fn lemma_word_key_injective(a: Word, b: Word)
    requires
        is_word(a),
        is_word(b),
        word_key_spec(a) == word_key_spec(b),
    ensures
        a == b,
{
    lemma_key_prefix_injective(a, b, WORD_LEN as int);
    assert(a =~= b);
}

/// Base-3 value of the tiles of `m`, first tile most significant.
pub open spec fn code_prefix(m: Seq<u8>, n: int) -> int
    decreases n,
{
    if n <= 0 {
        0
    } else {
        code_prefix(m, n - 1) * 3 + m[n - 1]
    }
}

/// The number that stands for a score row.
pub open spec fn match_code_spec(m: Match) -> int {
    code_prefix(m@, WORD_LEN as int)
}

proof fn lemma_code_prefix_bound(m: Match, n: int)
    requires
        is_match(m),
        0 <= n <= WORD_LEN,
    ensures
        0 <= code_prefix(m@, n),
        n == 0 ==> code_prefix(m@, n) < 1,
        n == 1 ==> code_prefix(m@, n) < 3,
        n == 2 ==> code_prefix(m@, n) < 9,
        n == 3 ==> code_prefix(m@, n) < 27,
        n == 4 ==> code_prefix(m@, n) < 81,
        n == 5 ==> code_prefix(m@, n) < 243,
    decreases n,
{
    if n > 0 {
        lemma_code_prefix_bound(m, n - 1);
        assert(m[n - 1] <= 2);
    }
}

/// The number that stands for a score row: its tiles read as a base-3 number.
pub fn match_code(row: &Match) -> (code: u8)
    requires
        is_match(*row),
    ensures
        code == match_code_spec(*row),
        code < 243,
{
    let mut acc: u8 = 0;
    for i in 0..WORD_LEN
        invariant
            is_match(*row),
            acc == code_prefix(row@, i as int),
    {
        proof {
            lemma_code_prefix_bound(*row, i as int);
            lemma_code_prefix_bound(*row, i + 1);
        }
        acc = acc * 3 + row[i];
    }
    proof {
        lemma_code_prefix_bound(*row, WORD_LEN as int);
    }
    acc
}

/// A sequence of tiles that is a score row: five tiles, each black, yellow or
/// green.
pub open spec fn is_row(m: Seq<u8>) -> bool {
    m.len() == WORD_LEN && forall|i: int| 0 <= i < WORD_LEN ==> #[trigger] m[i] <= GREEN
}

/// Two score rows with the same code are the same row, so comparing codes
/// compares rows.
pub proof fn lemma_match_code_injective(a: Seq<u8>, b: Seq<u8>)
    requires
        is_row(a),
        is_row(b),
        code_prefix(a, WORD_LEN as int) == code_prefix(b, WORD_LEN as int),
    ensures
        a == b,
{
    reveal_with_fuel(code_prefix, 6);
    assert(a[0] <= 2 && a[1] <= 2 && a[2] <= 2 && a[3] <= 2 && a[4] <= 2);
    assert(b[0] <= 2 && b[1] <= 2 && b[2] <= 2 && b[3] <= 2 && b[4] <= 2);
    assert(a =~= b);
}

/// One observed game: its score rows in the order they were played.
#[derive(Clone, Debug)]
pub struct Game {
    pub matches: Vec<Match>,
}

/// Every row of every game is a score row.
pub open spec fn games_valid(games: Seq<Game>) -> bool {
    forall|k: int, r: int|
        0 <= k < games.len() && 0 <= r < games[k].matches@.len() ==> is_match(
            #[trigger] games[k].matches@[r],
        )
}

} // verus!
