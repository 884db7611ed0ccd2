//! Hard mode: what the score rows seen so far oblige the next guess to use,
//! and the sequential check of a hidden game against a candidate answer.
use vstd::prelude::*;
use std::collections::HashMap;

use crate::dictionary::Dictionary;
use crate::prefilter::index_range;
use crate::score::{score_code, score_spec};
use crate::word::{
    code_prefix, counts_of, games_valid, is_match, is_row, is_word, letter_count,
    lemma_match_code_injective, match_code, Game, LetterCounts, Match, Word, ALPHABET, BLACK,
    GREEN, WORD_LEN, YELLOW,
};

verus! {

/// What hard mode requires of the next guess: the green letters (`-1` where no
/// position is fixed), the least number of copies of each letter, and the
/// (letter, position) pairs that a yellow tile has ruled out.
#[derive(Clone, Copy, Debug)]
pub struct HardModeState {
    pub greens: [i8; WORD_LEN],
    pub min_counts: [u8; ALPHABET],
    pub forbidden: [[bool; WORD_LEN]; ALPHABET],
}

/// The state before any row has been seen: nothing is required.
pub open spec fn is_initial_state(s: HardModeState) -> bool {
    &&& forall|i: int| 0 <= i < WORD_LEN ==> #[trigger] s.greens[i] == -1
    &&& forall|c: int| 0 <= c < ALPHABET ==> #[trigger] s.min_counts[c] == 0
    &&& forall|c: int, i: int|
        0 <= c < ALPHABET && 0 <= i < WORD_LEN ==> !#[trigger] s.forbidden[c][i]
}

/// Tiles at positions `j < n` that show the letter `c` as yellow or green.
pub open spec fn revealed_prefix(guess: Word, row: Seq<u8>, c: u8, n: int) -> nat
    decreases n,
{
    if n <= 0 {
        0
    } else {
        revealed_prefix(guess, row, c, n - 1) + if guess[n - 1] == c && row[n - 1] != BLACK {
            1nat
        } else {
            0nat
        }
    }
}

/// How many copies of `c` the row proves the solution to hold.
pub open spec fn revealed_count(guess: Word, row: Seq<u8>, c: u8) -> nat {
    revealed_prefix(guess, row, c, WORD_LEN as int)
}

/// `new` is `old` after `guess` scored `row`: green tiles fix their letters,
/// yellow tiles rule their letter out at their position, and each letter must
/// occur at least as often as the row shows it.
pub open spec fn is_update(old: HardModeState, guess: Word, row: Seq<u8>, new: HardModeState) -> bool {
    &&& forall|i: int|
        0 <= i < WORD_LEN ==> #[trigger] new.greens[i] == if row[i] == GREEN {
            guess[i] as i8
        } else {
            old.greens[i]
        }
    &&& forall|c: int, i: int|
        0 <= c < ALPHABET && 0 <= i < WORD_LEN ==> #[trigger] new.forbidden[c][i] == (
        old.forbidden[c][i] || (row[i] == YELLOW && guess[i] == c))
    &&& forall|c: int|
        0 <= c < ALPHABET ==> #[trigger] new.min_counts[c] == if old.min_counts[c]
            >= revealed_count(guess, row, c as u8) {
            old.min_counts[c] as int
        } else {
            revealed_count(guess, row, c as u8) as int
        }
}

/// Hard mode allows `w` as the next guess in state `s`.
pub open spec fn hard_mode_allows(s: HardModeState, w: Word) -> bool {
    &&& forall|i: int| 0 <= i < WORD_LEN && s.greens[i] != -1 ==> w[i] == #[trigger] s.greens[i] as u8
    &&& forall|c: int| 0 <= c < ALPHABET ==> letter_count(w, c as u8) >= #[trigger] s.min_counts[c]
    &&& forall|c: int, i: int|
        0 <= c < ALPHABET && 0 <= i < WORD_LEN && #[trigger] s.forbidden[c][i] ==> w[i] != c
}

/// `list` holds, in increasing order, exactly the positions of the words
/// that hard mode allows in state `s`.
pub open spec fn is_allowed_list(words: Seq<Word>, s: HardModeState, list: Seq<usize>) -> bool {
    &&& forall|a: int, b: int| 0 <= a < b < list.len() ==> list[a] < list[b]
    &&& forall|a: int|
        0 <= a < list.len() ==> #[trigger] list[a] < words.len() && hard_mode_allows(
            s,
            words[list[a] as int],
        )
    &&& forall|i: int|
        0 <= i < words.len() && #[trigger] hard_mode_allows(s, words[i]) ==> list.contains(
            i as usize,
        )
}

/// Playing some word of the list, legal in state `s`, against `solution`
/// gives `row` and leads to state `t`.
pub open spec fn successor(
    words: Seq<Word>,
    solution: Word,
    s: HardModeState,
    row: Match,
    t: HardModeState,
) -> bool {
    exists|g: int|
        0 <= g < words.len() && #[trigger] hard_mode_allows(s, words[g]) && score_spec(
            words[g],
            solution,
        ) == row@ && is_update(s, words[g], row@, t)
}

/// `path` is a sequence of states that starts with the initial state and in
/// which each state follows from the one before by the row at that step.
pub open spec fn is_state_path(
    words: Seq<Word>,
    solution: Word,
    rows: Seq<Match>,
    path: Seq<HardModeState>,
) -> bool {
    &&& path.len() == rows.len() + 1
    &&& is_initial_state(path[0])
    &&& forall|i: int|
        0 <= i < rows.len() ==> #[trigger] successor(words, solution, path[i], rows[i], path[i + 1])
}

/// After the rows `rows`, state `t` can be reached by a sequence of hard-mode
/// legal guesses from the list that score exactly those rows against
/// `solution`.
pub open spec fn reachable(words: Seq<Word>, solution: Word, rows: Seq<Match>, t: HardModeState) -> bool {
    exists|path: Seq<HardModeState>|
        #[trigger] is_state_path(words, solution, rows, path) && path.last() == t
}

/// Some sequence of hard-mode legal guesses from the list scores exactly
/// `rows` against `solution`.
pub open spec fn game_possible_spec(words: Seq<Word>, solution: Word, rows: Seq<Match>) -> bool {
    exists|t: HardModeState| #[trigger] reachable(words, solution, rows, t)
}

/// `c` is a position of the list whose word can explain every game.
pub open spec fn solution_fits(words: Seq<Word>, games: Seq<Game>, c: usize) -> bool {
    &&& c < words.len()
    &&& forall|k: int|
        0 <= k < games.len() ==> #[trigger] game_possible_spec(
            words,
            words[c as int],
            games[k].matches@,
        )
}

/// The hard-mode state before the first guess.
pub fn initial_hard_mode_state() -> (s: HardModeState)
    ensures
        is_initial_state(s),
{
    HardModeState {
        greens: [-1i8; WORD_LEN],
        min_counts: [0u8; ALPHABET],
        forbidden: [[false; WORD_LEN]; ALPHABET],
    }
}

proof fn lemma_revealed_prefix_bound(guess: Word, row: Seq<u8>, c: u8, n: int)
    requires
        0 <= n <= WORD_LEN,
    ensures
        revealed_prefix(guess, row, c, n) <= n,
    decreases n,
{
    if n > 0 {
        lemma_revealed_prefix_bound(guess, row, c, n - 1);
    }
}

/// The state after `guess` scored `row` in `state`.
pub fn update_hard_mode_state(state: &HardModeState, guess: &Word, row: &Match) -> (next:
    HardModeState)
    requires
        is_word(*guess),
    ensures
        is_update(*state, *guess, row@, next),
{
    let mut next = *state;

    for idx in 0..WORD_LEN
        invariant
            is_word(*guess),
            forall|i: int|
                0 <= i < idx ==> #[trigger] next.greens[i] == if row[i] == GREEN {
                    guess[i] as i8
                } else {
                    state.greens[i]
                },
            forall|i: int| idx <= i < WORD_LEN ==> #[trigger] next.greens[i] == state.greens[i],
            forall|c: int, i: int|
                0 <= c < ALPHABET && 0 <= i < WORD_LEN ==> #[trigger] next.forbidden[c][i] == (
                state.forbidden[c][i] || (i < idx && row[i] == YELLOW && guess[i] == c)),
            next.min_counts == state.min_counts,
    {
        let letter = guess[idx] as usize;
        if row[idx] == GREEN {
            next.greens[idx] = guess[idx] as i8;
        } else if row[idx] == YELLOW {
            let mut positions = next.forbidden[letter];
            positions[idx] = true;
            next.forbidden[letter] = positions;
        }
    }

    for letter in 0..ALPHABET
        invariant
            forall|i: int|
                0 <= i < WORD_LEN ==> #[trigger] next.greens[i] == if row[i] == GREEN {
                    guess[i] as i8
                } else {
                    state.greens[i]
                },
            forall|c: int, i: int|
                0 <= c < ALPHABET && 0 <= i < WORD_LEN ==> #[trigger] next.forbidden[c][i] == (
                state.forbidden[c][i] || (row[i] == YELLOW && guess[i] == c)),
            forall|c: int|
                0 <= c < letter ==> #[trigger] next.min_counts[c] == if state.min_counts[c]
                    >= revealed_count(*guess, row@, c as u8) {
                    state.min_counts[c] as int
                } else {
                    revealed_count(*guess, row@, c as u8) as int
                },
            forall|c: int| letter <= c < ALPHABET ==> #[trigger] next.min_counts[c] == state.min_counts[c],
    {
        let mut revealed: u8 = 0;
        for idx in 0..WORD_LEN
            invariant
                letter < ALPHABET,
                revealed == revealed_prefix(*guess, row@, letter as u8, idx as int),
        {
            proof {
                lemma_revealed_prefix_bound(*guess, row@, letter as u8, idx as int);
            }
            if guess[idx] as usize == letter && row[idx] != BLACK {
                revealed = revealed + 1;
            }
        }
        if next.min_counts[letter] < revealed {
            next.min_counts[letter] = revealed;
        }
    }
    next
}

/// An update is determined by the state, the guess and the row.
pub proof fn lemma_update_unique(
    s: HardModeState,
    guess: Word,
    row: Seq<u8>,
    t1: HardModeState,
    t2: HardModeState,
)
    requires
        is_update(s, guess, row, t1),
        is_update(s, guess, row, t2),
    ensures
        t1 == t2,
{
    assert(t1.greens =~= t2.greens);
    assert(t1.min_counts =~= t2.min_counts);
    assert forall|c: int| 0 <= c < ALPHABET implies t1.forbidden[c] == t2.forbidden[c] by {
        assert(t1.forbidden[c] =~= t2.forbidden[c]);
    }
    assert(t1.forbidden =~= t2.forbidden);
}

/// Whether hard mode allows `word` in `state`.
fn allows(state: &HardModeState, word: &Word, counts: &LetterCounts) -> (ok: bool)
    requires
        counts_of(*counts, *word),
    ensures
        ok == hard_mode_allows(*state, *word),
{
    for idx in 0..WORD_LEN
        invariant
            forall|i: int|
                0 <= i < idx && state.greens[i] != -1 ==> word[i] == #[trigger] state.greens[i] as u8,
    {
        if state.greens[idx] != -1 && word[idx] != state.greens[idx] as u8 {
            return false;
        }
    }
    for letter in 0..ALPHABET
        invariant
            counts_of(*counts, *word),
            forall|i: int|
                0 <= i < WORD_LEN && state.greens[i] != -1 ==> word[i] == #[trigger] state.greens[i] as u8,
            forall|c: int| 0 <= c < letter ==> letter_count(*word, c as u8) >= #[trigger] state.min_counts[c],
            forall|c: int, i: int|
                0 <= c < letter && 0 <= i < WORD_LEN && #[trigger] state.forbidden[c][i] ==> word[i] != c,
    {
        if counts[letter] < state.min_counts[letter] {
            assert(letter_count(*word, letter as u8) < state.min_counts[letter as int]);
            return false;
        }
        for idx in 0..WORD_LEN
            invariant
                letter < ALPHABET,
                forall|i: int| 0 <= i < idx && #[trigger] state.forbidden[letter as int][i] ==> word[i] != letter,
        {
            if state.forbidden[letter][idx] && word[idx] as usize == letter {
                return false;
            }
        }
    }
    true
}

/// Positions, in increasing order, of the words that hard mode allows in
/// `state`.
pub fn hard_mode_guess_idxs(dict: &Dictionary, state: &HardModeState) -> (allowed: Vec<usize>)
    ensures
        is_allowed_list(dict@, *state, allowed@),
        allowed@ == index_range(dict@.len()).filter(
            |i: usize| hard_mode_allows(*state, dict@[i as int]),
        ),
{
    let ghost pred = |i: usize| hard_mode_allows(*state, dict@[i as int]);
    let n = dict.len();
    let mut allowed: Vec<usize> = Vec::new();
    for word_idx in 0..n
        invariant
            n == dict@.len(),
            forall|a: int, b: int| 0 <= a < b < allowed@.len() ==> allowed@[a] < allowed@[b],
            forall|a: int|
                0 <= a < allowed@.len() ==> #[trigger] allowed@[a] < word_idx && hard_mode_allows(
                    *state,
                    dict@[allowed@[a] as int],
                ),
            forall|i: int|
                0 <= i < word_idx && #[trigger] hard_mode_allows(*state, dict@[i]) ==> allowed@.contains(
                    i as usize,
                ),
            pred == (|i: usize| hard_mode_allows(*state, dict@[i as int])),
            allowed@ == index_range(n as nat).take(word_idx as int).filter(pred),
    {
        let word = dict.word(word_idx);
        if allows(state, &word, dict.counts(word_idx)) {
            let ghost before = allowed@;
            allowed.push(word_idx);
            assert(allowed@[allowed@.len() - 1] == word_idx);
            assert forall|x: usize| before.contains(x) implies allowed@.contains(x) by {
                let j = choose|j: int| 0 <= j < before.len() && before[j] == x;
                assert(allowed@[j] == x);
            }
        }
        proof {
            let next = index_range(n as nat).take(word_idx + 1);
            assert(next.drop_last() =~= index_range(n as nat).take(word_idx as int));
            assert(next.last() == word_idx);
            reveal_with_fuel(Seq::filter, 1);
        }
    }
    proof {
        assert(index_range(n as nat).take(n as int) =~= index_range(n as nat));
    }
    allowed
}

/// Whether two states are equal.
pub fn state_eq(a: &HardModeState, b: &HardModeState) -> (eq: bool)
    ensures
        eq == (*a == *b),
{
    for i in 0..WORD_LEN
        invariant
            forall|j: int| 0 <= j < i ==> #[trigger] a.greens[j] == b.greens[j],
    {
        if a.greens[i] != b.greens[i] {
            return false;
        }
    }
    for c in 0..ALPHABET
        invariant
            forall|j: int| 0 <= j < WORD_LEN ==> #[trigger] a.greens[j] == b.greens[j],
            forall|d: int| 0 <= d < c ==> #[trigger] a.min_counts[d] == b.min_counts[d],
            forall|d: int, j: int|
                0 <= d < c && 0 <= j < WORD_LEN ==> #[trigger] a.forbidden[d][j] == b.forbidden[d][j],
    {
        if a.min_counts[c] != b.min_counts[c] {
            return false;
        }
        for i in 0..WORD_LEN
            invariant
                c < ALPHABET,
                forall|j: int| 0 <= j < i ==> #[trigger] a.forbidden[c as int][j] == b.forbidden[c as int][j],
        {
            if a.forbidden[c][i] != b.forbidden[c][i] {
                return false;
            }
        }
    }
    assert(a.greens =~= b.greens);
    assert(a.min_counts =~= b.min_counts);
    assert forall|d: int| 0 <= d < ALPHABET implies a.forbidden[d] == b.forbidden[d] by {
        assert(a.forbidden[d] =~= b.forbidden[d]);
    }
    assert(a.forbidden =~= b.forbidden);
    true
}

/// Starting value of the state fingerprint (the 64-bit FNV-1a offset basis).
pub const FNV_OFFSET: u64 = 14695981039346656037;

/// Multiplier of the state fingerprint (the 64-bit FNV prime).
pub const FNV_PRIME: u64 = 1099511628211;

/// One step of the fingerprint: mix in `x`, then multiply modulo 2^64.
pub open spec fn fnv_step(h: u64, x: u64) -> u64 {
    (h ^ x).wrapping_mul(FNV_PRIME)
}

/// The fingerprint of a sequence of numbers, mixed in from first to last.
pub open spec fn fnv_of(xs: Seq<u64>) -> u64
    decreases xs.len(),
{
    if xs.len() == 0 {
        FNV_OFFSET
    } else {
        fnv_step(fnv_of(xs.drop_last()), xs.last())
    }
}

/// The green positions of a state, as the numbers that the fingerprint mixes in.
pub open spec fn green_numbers(s: HardModeState) -> Seq<u64> {
    Seq::new(WORD_LEN as nat, |i: int| (s.greens[i] as u8) as u64)
}

/// A flag as the number that the fingerprint mixes in.
pub open spec fn flag_number(b: bool) -> u64 {
    if b {
        1
    } else {
        0
    }
}

/// What the fingerprint mixes in for letter `c`: its least count, then
/// whether it is forbidden at each position.
pub open spec fn letter_numbers(s: HardModeState, c: int) -> Seq<u64> {
    seq![s.min_counts[c] as u64] + Seq::new(WORD_LEN as nat, |i: int| flag_number(s.forbidden[c][i]))
}

/// What the fingerprint mixes in for the letters below `n`, in order.
pub open spec fn letters_numbers(s: HardModeState, n: int) -> Seq<u64>
    decreases n,
{
    if n <= 0 {
        Seq::empty()
    } else {
        letters_numbers(s, n - 1) + letter_numbers(s, n - 1)
    }
}

/// Every number of a state that the fingerprint mixes in, in order.
pub open spec fn state_numbers(s: HardModeState) -> Seq<u64> {
    green_numbers(s) + letters_numbers(s, ALPHABET as int)
}

proof fn lemma_fnv_push(xs: Seq<u64>, x: u64)
    ensures
        fnv_of(xs.push(x)) == fnv_step(fnv_of(xs), x),
{
    assert(xs.push(x).drop_last() =~= xs);
}

/// A number derived from a state, used to find equal states quickly: the
/// FNV-1a fingerprint of the state's numbers.
fn fingerprint(s: &HardModeState) -> (h: u64)
    ensures
        h == fnv_of(state_numbers(*s)),
{
    let mut h: u64 = FNV_OFFSET;
    let ghost mut acc: Seq<u64> = Seq::empty();
    for i in 0..WORD_LEN
        invariant
            acc =~= green_numbers(*s).take(i as int),
            h == fnv_of(acc),
    {
        let g: u64 = (s.greens[i] as u8) as u64;
        proof {
            lemma_fnv_push(acc, g);
            acc = acc.push(g);
        }
        h = (h ^ g).wrapping_mul(FNV_PRIME);
    }
    assert(green_numbers(*s).take(WORD_LEN as int) =~= green_numbers(*s));
    assert(acc =~= green_numbers(*s) + letters_numbers(*s, 0));
    for c in 0..ALPHABET
        invariant
            acc == green_numbers(*s) + letters_numbers(*s, c as int),
            h == fnv_of(acc),
    {
        let ghost base: Seq<u64> = acc;
        let m: u64 = s.min_counts[c] as u64;
        proof {
            lemma_fnv_push(acc, m);
            acc = acc.push(m);
        }
        h = (h ^ m).wrapping_mul(FNV_PRIME);
        for i in 0..WORD_LEN
            invariant
                c < ALPHABET,
                acc =~= base + letter_numbers(*s, c as int).take(1 + i),
                h == fnv_of(acc),
        {
            let bit: u64 = if s.forbidden[c][i] {
                1
            } else {
                0
            };
            proof {
                lemma_fnv_push(acc, bit);
                acc = acc.push(bit);
            }
            h = (h ^ bit).wrapping_mul(FNV_PRIME);
        }
        assert(letter_numbers(*s, c as int).take(1 + WORD_LEN) =~= letter_numbers(*s, c as int));
        assert(acc =~= green_numbers(*s) + letters_numbers(*s, c + 1));
    }
    h
}

/// Adds `s` to the states in `next` unless an equal state is already there.
fn add_state(next: &mut Vec<HardModeState>, seen: &mut HashMap<u64, usize>, s: HardModeState)
    ensures
        forall|t: HardModeState|
            #[trigger] final(next)@.contains(t) <==> (old(next)@.contains(t) || t == s),
{
    let fp = fingerprint(&s);
    let mut present = false;
    match seen.get(&fp) {
        Some(pos) => {
            let pos = *pos;
            if pos < next.len() && state_eq(&next[pos], &s) {
                present = true;
            }
        },
        None => {},
    }
    if !present {
        seen.insert(fp, next.len());
        next.push(s);
        proof {
            assert forall|t: HardModeState| #[trigger] next@.contains(t) <==> (old(next)@.contains(t) || t == s) by {
                if old(next)@.contains(t) {
                    let j = choose|j: int| 0 <= j < old(next)@.len() && old(next)@[j] == t;
                    assert(next@[j] == t);
                }
                if t == s {
                    assert(next@[next@.len() - 1] == t);
                }
                if next@.contains(t) {
                    let j = choose|j: int| 0 <= j < next@.len() && next@[j] == t;
                    if j < old(next)@.len() {
                        assert(old(next)@[j] == t);
                    }
                }
            }
        }
    }
}

/// Remembers, for the states met so far, which words hard mode allows.
pub struct GuessCache {
    states: Vec<HardModeState>,
    lists: Vec<Vec<usize>>,
    index: HashMap<u64, usize>,
}

impl GuessCache {
    /// Every remembered list is the allowed list of its state for `words`.
    pub closed spec fn valid_for(&self, words: Seq<Word>) -> bool {
        &&& self.states.len() == self.lists.len()
        &&& forall|i: int|
            0 <= i < self.states.len() ==> is_allowed_list(
                words,
                #[trigger] self.states@[i],
                self.lists@[i]@,
            )
    }

    /// The states met so far, in order, each with the list that the cache
    /// holds for it.
    pub closed spec fn remembered(&self) -> Seq<(HardModeState, Seq<usize>)> {
        Seq::new(self.states@.len(), |i: int| (self.states@[i], self.lists@[i]@))
    }

    /// Every entry of `earlier` is still held, unchanged and at its place.
    pub open spec fn keeps(&self, earlier: &GuessCache) -> bool {
        &&& earlier.remembered().len() <= self.remembered().len()
        &&& forall|i: int|
            0 <= i < earlier.remembered().len() ==> #[trigger] self.remembered()[i]
                == earlier.remembered()[i]
    }

    /// An empty cache, valid for any word list.
    pub fn new() -> (cache: GuessCache)
        ensures
            cache.remembered().len() == 0,
            forall|words: Seq<Word>| cache.valid_for(words),
    {
        GuessCache { states: Vec::new(), lists: Vec::new(), index: HashMap::new() }
    }

    /// Position of `state` in the cache, adding its allowed list first where
    /// it is not there yet.
    fn position_of(&mut self, dict: &Dictionary, state: &HardModeState) -> (pos: usize)
        requires
            old(self).valid_for(dict@),
        ensures
            final(self).valid_for(dict@),
            pos < final(self).states.len(),
            final(self).states@[pos as int] == *state,
            final(self).keeps(old(self)),
    {
        let fp = fingerprint(state);
        match self.index.get(&fp) {
            Some(p) => {
                let p = *p;
                if p < self.states.len() && state_eq(&self.states[p], state) {
                    return p;
                }
            },
            None => {},
        }
        let list = hard_mode_guess_idxs(dict, state);
        let pos = self.states.len();
        self.states.push(*state);
        self.lists.push(list);
        self.index.insert(fp, pos);
        assert(self.states@[pos as int] == *state);
        assert forall|i: int|
            0 <= i < self.states.len() implies is_allowed_list(
            dict@,
            #[trigger] self.states@[i],
            self.lists@[i]@,
        ) by {
            if i < pos {
                assert(self.states@[i] == old(self).states@[i]);
                assert(self.lists@[i] == old(self).lists@[i]);
            }
        }
        pos
    }
}

/// The score row of a word is a row of tiles.
proof fn lemma_score_is_row(guess: Word, solution: Word)
    ensures
        is_row(score_spec(guess, solution)),
{
}

/// Reaching a state after some rows needs a reachable state after each
/// shorter prefix of them.
proof fn lemma_reachable_prefix(
    words: Seq<Word>,
    solution: Word,
    rows: Seq<Match>,
    m: int,
    t: HardModeState,
) -> (s: HardModeState)
    requires
        reachable(words, solution, rows, t),
        0 <= m <= rows.len(),
    ensures
        reachable(words, solution, rows.take(m), s),
{
    let path = choose|path: Seq<HardModeState>|
        #[trigger] is_state_path(words, solution, rows, path) && path.last() == t;
    let p2 = path.take(m + 1);
    assert forall|i: int| 0 <= i < rows.take(m).len() implies #[trigger] successor(
        words,
        solution,
        p2[i],
        rows.take(m)[i],
        p2[i + 1],
    ) by {
        assert(successor(words, solution, path[i], rows[i], path[i + 1]));
    }
    assert(is_state_path(words, solution, rows.take(m), p2));
    assert(p2.last() == path[m]);
    path[m]
}

/// States reachable after one more row are exactly the successors of the
/// states reachable before it.
proof fn lemma_reachable_step(
    words: Seq<Word>,
    solution: Word,
    rows: Seq<Match>,
    i: int,
    t: HardModeState,
)
    requires
        0 <= i < rows.len(),
    ensures
        reachable(words, solution, rows.take(i + 1), t) <==> exists|s: HardModeState|
            #[trigger] reachable(words, solution, rows.take(i), s) && successor(
                words,
                solution,
                s,
                rows[i],
                t,
            ),
{
    let pre = rows.take(i);
    let post = rows.take(i + 1);
    if reachable(words, solution, post, t) {
        let path = choose|path: Seq<HardModeState>|
            #[trigger] is_state_path(words, solution, post, path) && path.last() == t;
        let p2 = path.drop_last();
        assert forall|j: int| 0 <= j < pre.len() implies #[trigger] successor(
            words,
            solution,
            p2[j],
            pre[j],
            p2[j + 1],
        ) by {
            assert(successor(words, solution, path[j], post[j], path[j + 1]));
        }
        assert(is_state_path(words, solution, pre, p2));
        assert(successor(words, solution, path[i], post[i], path[i + 1]));
        assert(reachable(words, solution, pre, p2.last()));
    }
    if exists|s: HardModeState|
        #[trigger] reachable(words, solution, pre, s) && successor(words, solution, s, rows[i], t) {
        let s = choose|s: HardModeState|
            #[trigger] reachable(words, solution, pre, s) && successor(words, solution, s, rows[i], t);
        let path = choose|path: Seq<HardModeState>|
            #[trigger] is_state_path(words, solution, pre, path) && path.last() == s;
        let p2 = path.push(t);
        assert forall|j: int| 0 <= j < post.len() implies #[trigger] successor(
            words,
            solution,
            p2[j],
            post[j],
            p2[j + 1],
        ) by {
            if j < i {
                assert(successor(words, solution, path[j], pre[j], path[j + 1]));
            }
        }
        assert(is_state_path(words, solution, post, p2));
    }
}

/// Whether some sequence of hard-mode legal guesses from the list scores
/// exactly the rows of `game` against the word at `solution_idx`.
pub fn hard_mode_game_possible(
    dict: &Dictionary,
    solution_idx: usize,
    game: &Game,
    cache: &mut GuessCache,
) -> (possible: bool)
    requires
        solution_idx < dict@.len(),
        forall|r: int| 0 <= r < game.matches@.len() ==> is_match(#[trigger] game.matches@[r]),
        old(cache).valid_for(dict@),
    ensures
        final(cache).valid_for(dict@),
        final(cache).keeps(old(cache)),
        possible == game_possible_spec(dict@, dict@[solution_idx as int], game.matches@),
{
    let ghost words = dict@;
    let ghost rows = game.matches@;
    let n = dict.len();
    let solution = dict.word(solution_idx);
    let solution_counts = dict.counts(solution_idx);
    let mut states: Vec<HardModeState> = Vec::new();
    states.push(initial_hard_mode_state());
    proof {
        assert(rows.take(0) =~= Seq::<Match>::empty());
        assert forall|t: HardModeState| #[trigger] states@.contains(t) <==> reachable(words, solution, rows.take(0), t) by {
            if states@.contains(t) {
                let path = seq![t];
                assert(is_state_path(words, solution, rows.take(0), path));
            }
            if reachable(words, solution, rows.take(0), t) {
                let path = choose|path: Seq<HardModeState>|
                    #[trigger] is_state_path(words, solution, rows.take(0), path) && path.last() == t;
                assert(path[0] == t);
                assert(t.greens =~= states@[0].greens);
                assert(t.min_counts =~= states@[0].min_counts);
                assert forall|c: int| 0 <= c < ALPHABET implies t.forbidden[c] == states@[0].forbidden[c] by {
                    assert(t.forbidden[c] =~= states@[0].forbidden[c]);
                }
                assert(t.forbidden =~= states@[0].forbidden);
                assert(states@[0] == t);
            }
        }
    }

    let num_rows = game.matches.len();
    for i in 0..num_rows
        invariant
            words == dict@,
            rows == game.matches@,
            num_rows == rows.len(),
            n == words.len(),
            solution_idx < n,
            solution == words[solution_idx as int],
            is_word(solution),
            counts_of(*solution_counts, solution),
            forall|w: int| 0 <= w < n ==> is_word(#[trigger] words[w]),
            forall|r: int| 0 <= r < rows.len() ==> is_match(#[trigger] rows[r]),
            cache.valid_for(words),
            cache.keeps(old(cache)),
            states@.len() > 0,
            forall|t: HardModeState|
                #[trigger] states@.contains(t) <==> reachable(words, solution, rows.take(i as int), t),
    {
        let row = game.matches[i];
        let target = match_code(&row);
        let mut next: Vec<HardModeState> = Vec::new();
        let mut seen: HashMap<u64, usize> = HashMap::new();
        let num_states = states.len();
        for k in 0..num_states
            invariant
                words == dict@,
                n == words.len(),
                solution_idx < n,
                solution == words[solution_idx as int],
                is_word(solution),
                counts_of(*solution_counts, solution),
                forall|w: int| 0 <= w < n ==> is_word(#[trigger] words[w]),
                is_match(row),
                target == code_prefix(row@, WORD_LEN as int),
                num_states == states@.len(),
                cache.valid_for(words),
                cache.keeps(old(cache)),
                forall|t: HardModeState|
                    #[trigger] next@.contains(t) <==> exists|j: int|
                        0 <= j < k && successor(words, solution, #[trigger] states@[j], row, t),
        {
            let state = states[k];
            let pos = cache.position_of(dict, &state);
            let allowed = &cache.lists[pos];
            let num_allowed = allowed.len();
            assert(is_allowed_list(words, state, allowed@));
            for a in 0..num_allowed
                invariant
                    words == dict@,
                    n == words.len(),
                    solution_idx < n,
                    solution == words[solution_idx as int],
                    is_word(solution),
                    counts_of(*solution_counts, solution),
                    forall|w: int| 0 <= w < n ==> is_word(#[trigger] words[w]),
                    is_match(row),
                    target == code_prefix(row@, WORD_LEN as int),
                    k < num_states,
                    num_states == states@.len(),
                    state == states@[k as int],
                    num_allowed == allowed@.len(),
                    is_allowed_list(words, state, allowed@),
                    forall|t: HardModeState|
                        #[trigger] next@.contains(t) <==> (exists|j: int|
                            0 <= j < k && successor(words, solution, #[trigger] states@[j], row, t))
                            || (exists|b: int|
                            0 <= b < a && score_spec(words[#[trigger] allowed@[b] as int], solution)
                                == row@ && is_update(state, words[allowed@[b] as int], row@, t)),
            {
                let guess_idx = allowed[a];
                let guess = dict.word(guess_idx);
                let code = score_code(&guess, &solution, solution_counts);
                proof {
                    lemma_score_is_row(guess, solution);
                    if code == target {
                        lemma_match_code_injective(score_spec(guess, solution), row@);
                    }
                }
                if code == target {
                    let ns = update_hard_mode_state(&state, &guess, &row);
                    let ghost old_next = next@;
                    add_state(&mut next, &mut seen, ns);
                    proof {
                        assert forall|t: HardModeState| #[trigger] next@.contains(t) <==> (
                            (exists|j: int| 0 <= j < k && successor(words, solution, #[trigger] states@[j], row, t))
                            || (exists|b: int| 0 <= b < a + 1 && score_spec(words[#[trigger] allowed@[b] as int], solution)
                                == row@ && is_update(state, words[allowed@[b] as int], row@, t))) by {
                            if t == ns {
                                assert(score_spec(words[allowed@[a as int] as int], solution) == row@);
                            }
                            if exists|b: int| 0 <= b < a + 1 && score_spec(words[#[trigger] allowed@[b] as int], solution)
                                == row@ && is_update(state, words[allowed@[b] as int], row@, t) {
                                let b = choose|b: int| 0 <= b < a + 1 && score_spec(words[#[trigger] allowed@[b] as int], solution)
                                    == row@ && is_update(state, words[allowed@[b] as int], row@, t);
                                if b == a {
                                    lemma_update_unique(state, guess, row@, t, ns);
                                }
                            }
                        }
                    }
                } else {
                    proof {
                        assert forall|t: HardModeState| #[trigger] next@.contains(t) <==> (
                            (exists|j: int| 0 <= j < k && successor(words, solution, #[trigger] states@[j], row, t))
                            || (exists|b: int| 0 <= b < a + 1 && score_spec(words[#[trigger] allowed@[b] as int], solution)
                                == row@ && is_update(state, words[allowed@[b] as int], row@, t))) by {
                            if exists|b: int| 0 <= b < a + 1 && score_spec(words[#[trigger] allowed@[b] as int], solution)
                                == row@ && is_update(state, words[allowed@[b] as int], row@, t) {
                                let b = choose|b: int| 0 <= b < a + 1 && score_spec(words[#[trigger] allowed@[b] as int], solution)
                                    == row@ && is_update(state, words[allowed@[b] as int], row@, t);
                                if b == a {
                                    assert(code_prefix(score_spec(guess, solution), WORD_LEN as int) != code_prefix(row@, WORD_LEN as int));
                                }
                            }
                        }
                    }
                }
            }
            proof {
                assert forall|t: HardModeState| #[trigger] next@.contains(t) <==> exists|j: int|
                    0 <= j < k + 1 && successor(words, solution, #[trigger] states@[j], row, t) by {
                    if exists|b: int| 0 <= b < num_allowed && score_spec(words[#[trigger] allowed@[b] as int], solution)
                        == row@ && is_update(state, words[allowed@[b] as int], row@, t) {
                        let b = choose|b: int| 0 <= b < num_allowed && score_spec(words[#[trigger] allowed@[b] as int], solution)
                            == row@ && is_update(state, words[allowed@[b] as int], row@, t);
                        let g = allowed@[b] as int;
                        assert(hard_mode_allows(state, words[g]));
                        assert(successor(words, solution, states@[k as int], row, t));
                    }
                    if successor(words, solution, states@[k as int], row, t) {
                        let g = choose|g: int|
                            0 <= g < words.len() && #[trigger] hard_mode_allows(state, words[g]) && score_spec(
                                words[g],
                                solution,
                            ) == row@ && is_update(state, words[g], row@, t);
                        assert(allowed@.contains(g as usize));
                        let b = choose|b: int| 0 <= b < allowed@.len() && allowed@[b] == g as usize;
                        assert(score_spec(words[allowed@[b] as int], solution) == row@);
                    }
                    if exists|j: int| 0 <= j < k + 1 && successor(words, solution, #[trigger] states@[j], row, t) {
                        let j = choose|j: int| 0 <= j < k + 1 && successor(words, solution, #[trigger] states@[j], row, t);
                        if j < k {
                        } else {
                            assert(j == k);
                        }
                    }
                }
            }
        }
        proof {
            assert forall|t: HardModeState| #[trigger] next@.contains(t) <==> reachable(words, solution, rows.take(i + 1), t) by {
                lemma_reachable_step(words, solution, rows, i as int, t);
                if next@.contains(t) {
                    let j = choose|j: int| 0 <= j < num_states && successor(words, solution, #[trigger] states@[j], row, t);
                    assert(states@.contains(states@[j]));
                    assert(reachable(words, solution, rows.take(i as int), states@[j]));
                }
                if reachable(words, solution, rows.take(i + 1), t) {
                    let s = choose|s: HardModeState|
                        #[trigger] reachable(words, solution, rows.take(i as int), s) && successor(
                            words,
                            solution,
                            s,
                            rows[i as int],
                            t,
                        );
                    assert(states@.contains(s));
                    let j = choose|j: int| 0 <= j < states@.len() && states@[j] == s;
                    assert(successor(words, solution, states@[j], row, t));
                }
            }
        }
        if next.len() == 0 {
            proof {
                if game_possible_spec(words, solution, rows) {
                    let t = choose|t: HardModeState| #[trigger] reachable(words, solution, rows, t);
                    let s = lemma_reachable_prefix(words, solution, rows, i + 1, t);
                    assert(next@.contains(s));
                }
            }
            return false;
        }
        states = next;
    }
    proof {
        assert(rows.take(num_rows as int) =~= rows);
        assert(states@.contains(states@[0]));
        assert(reachable(words, solution, rows, states@[0]));
    }
    true
}

/// Whether the word at `solution_idx` can explain every game in hard mode.
pub fn hard_mode_solution_possible(
    dict: &Dictionary,
    games: &Vec<Game>,
    solution_idx: usize,
    cache: &mut GuessCache,
) -> (fits: bool)
    requires
        solution_idx < dict@.len(),
        games_valid(games@),
        old(cache).valid_for(dict@),
    ensures
        final(cache).valid_for(dict@),
        final(cache).keeps(old(cache)),
        fits == solution_fits(dict@, games@, solution_idx),
{
    let num_games = games.len();
    for k in 0..num_games
        invariant
            num_games == games@.len(),
            solution_idx < dict@.len(),
            games_valid(games@),
            cache.valid_for(dict@),
            cache.keeps(old(cache)),
            forall|j: int|
                0 <= j < k ==> #[trigger] game_possible_spec(
                    dict@,
                    dict@[solution_idx as int],
                    games@[j].matches@,
                ),
    {
        let game = &games[k];
        assert forall|r: int| 0 <= r < game.matches@.len() implies is_match(
            #[trigger] game.matches@[r],
        ) by {
            assert(is_match(games@[k as int].matches@[r]));
        }
        if !hard_mode_game_possible(dict, solution_idx, game, cache) {
            return false;
        }
    }
    true
}

/// The candidates, in their order, whose word can explain every game as a
/// sequence of hard-mode legal guesses.
pub fn hard_mode_candidates(dict: &Dictionary, games: &Vec<Game>, candidate_idxs: &Vec<usize>) -> (possible:
    Vec<usize>)
    requires
        forall|i: int| 0 <= i < candidate_idxs@.len() ==> #[trigger] candidate_idxs@[i] < dict@.len(),
        games_valid(games@),
    ensures
        possible@ == candidate_idxs@.filter(|c: usize| solution_fits(dict@, games@, c)),
{
    let ghost pred = |c: usize| solution_fits(dict@, games@, c);
    let mut possible: Vec<usize> = Vec::new();
    let mut cache = GuessCache::new();
    let num = candidate_idxs.len();
    for checked in 0..num
        invariant
            num == candidate_idxs@.len(),
            forall|i: int| 0 <= i < candidate_idxs@.len() ==> #[trigger] candidate_idxs@[i] < dict@.len(),
            games_valid(games@),
            cache.valid_for(dict@),
            pred == (|c: usize| solution_fits(dict@, games@, c)),
            possible@ == candidate_idxs@.take(checked as int).filter(pred),
    {
        let solution_idx = candidate_idxs[checked];
        let fits = hard_mode_solution_possible(dict, games, solution_idx, &mut cache);
        if fits {
            possible.push(solution_idx);
        }
        proof {
            let next = candidate_idxs@.take(checked + 1);
            assert(next.drop_last() =~= candidate_idxs@.take(checked as int));
            reveal_with_fuel(Seq::filter, 1);
        }
    }
    proof {
        assert(candidate_idxs@.take(num as int) =~= candidate_idxs@);
    }
    possible
}

} // verus!
