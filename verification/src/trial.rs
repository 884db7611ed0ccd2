//! Synthetic games: random guesses against a known answer until it is found,
//! six guesses are made, or no guess is left.
use vstd::prelude::*;
use std::collections::HashSet;

use crate::dictionary::Dictionary;
use crate::hard_mode::{
    hard_mode_allows, hard_mode_guess_idxs, initial_hard_mode_state, is_initial_state, is_update,
    lemma_update_unique, update_hard_mode_state, HardModeState,
};
use crate::parse::{match_text, match_to_string, word_text, word_to_string};
use crate::prefilter::{index_range, lemma_filter_congruent, lemma_filter_filter};
use crate::score::{score_code, score_match, score_spec};
use crate::text::{ascii_lower, to_ascii_lowercase};
use crate::word::{
    code_prefix, is_row, is_word, lemma_match_code_injective, match_code, Word, WORD_LEN,
};

verus! {

broadcast use vstd::std_specs::hash::group_hash_axioms;

/// Most guesses in one synthetic game.
pub const MAX_GUESSES: usize = 6;

/// The xorshift generator state that a zero seed is replaced by.
pub const ZERO_SEED_STATE: u64 = 0x9e37_79b9_7f4a_7c15;

/// A 64-bit xorshift random number generator.
pub struct XorShift64 {
    state: u64,
}

/// One xorshift step: shifts by 13 left, 7 right and 17 left, each xored in.
pub open spec fn xorshift_step(x: u64) -> u64 {
    let a = x ^ (x << 13u64);
    let b = a ^ (a >> 7u64);
    b ^ (b << 17u64)
}

impl View for XorShift64 {
    type V = u64;

    closed spec fn view(&self) -> u64 {
        self.state
    }
}

impl XorShift64 {
    /// A generator started from `seed`; a zero seed, which xorshift would
    /// never leave, is replaced by a fixed non-zero state.
    pub fn new(seed: u64) -> (rng: XorShift64)
        ensures
            rng@ == if seed == 0 {
                ZERO_SEED_STATE
            } else {
                seed
            },
    {
        XorShift64 { state: if seed == 0 { ZERO_SEED_STATE } else { seed } }
    }

    /// The next number, which is also the new state.
    pub fn next_u64(&mut self) -> (x: u64)
        ensures
            x == xorshift_step(old(self)@),
            final(self)@ == x,
    {
        let mut x = self.state;
        x = x ^ (x << 13u64);
        x = x ^ (x >> 7u64);
        x = x ^ (x << 17u64);
        self.state = x;
        x
    }

    /// A number below `upper`: the next number, as a `usize`, modulo `upper`.
    pub fn gen_range(&mut self, upper: usize) -> (r: usize)
        requires
            upper > 0,
        ensures
            r == (xorshift_step(old(self)@) as usize) % upper,
            final(self)@ == xorshift_step(old(self)@),
    {
        (self.next_u64() as usize) % upper
    }
}

/// One guess of a synthetic game: the word, its score row as text, and how
/// many words of the list still agree with every row so far.
#[derive(Clone, Debug)]
pub struct TrialGuess {
    pub word: String,
    pub match_text: String,
    pub remaining: usize,
}

/// A synthetic game: the answer and the guesses made.
#[derive(Clone, Debug)]
pub struct TrialGame {
    pub answer: String,
    pub guesses: Vec<TrialGuess>,
}

/// The path `path` of hard-mode states follows the guesses `hist`, each scored
/// against `answer`, from the initial state.
pub open spec fn is_guess_path(
    words: Seq<Word>,
    answer: Word,
    hist: Seq<usize>,
    path: Seq<HardModeState>,
) -> bool {
    &&& path.len() == hist.len() + 1
    &&& is_initial_state(path[0])
    &&& forall|i: int|
        0 <= i < hist.len() ==> #[trigger] is_update(
            path[i],
            words[hist[i] as int],
            score_spec(words[hist[i] as int], answer),
            path[i + 1],
        )
}

/// `t` is the hard-mode state after the guesses `hist` against `answer`.
pub open spec fn is_state_after(words: Seq<Word>, answer: Word, hist: Seq<usize>, t: HardModeState) -> bool {
    exists|path: Seq<HardModeState>| #[trigger] is_guess_path(words, answer, hist, path) && path.last() == t
}

/// The word at `c` would have given the guess at `g` the same row as the
/// answer did.
pub open spec fn agrees(words: Seq<Word>, answer: Word, g: usize, c: usize) -> bool {
    score_spec(words[g as int], words[c as int]) == score_spec(words[g as int], answer)
}

/// Positions, in increasing order, of the words that agree with every guess of
/// `hist`.
pub open spec fn trial_candidates(words: Seq<Word>, answer: Word, hist: Seq<usize>) -> Seq<usize>
    decreases hist.len(),
{
    if hist.len() == 0 {
        index_range(words.len())
    } else {
        trial_candidates(words, answer, hist.drop_last()).filter(
            |c: usize| agrees(words, answer, hist.last(), c),
        )
    }
}

/// Hard mode allows the word at `i` after the guesses `hist`.
pub open spec fn allowed_after(words: Seq<Word>, answer: Word, hist: Seq<usize>, i: usize) -> bool {
    exists|t: HardModeState|
        #[trigger] is_state_after(words, answer, hist, t) && hard_mode_allows(t, words[i as int])
}

/// The words a random guess is drawn from: those not guessed yet and, in
/// hard mode, allowed by the rows so far; in increasing order of position.
pub open spec fn trial_pool(words: Seq<Word>, answer: Word, hard_mode: bool, hist: Seq<usize>) -> Seq<usize> {
    index_range(words.len()).filter(
        |i: usize| (!hard_mode || allowed_after(words, answer, hist, i)) && !hist.contains(i),
    )
}

/// The next guess and generator state: the only word left, or a word of the
/// pool at the next random number modulo the pool's size; none when no word
/// agrees or the pool is empty.
pub open spec fn next_guess(
    words: Seq<Word>,
    answer: Word,
    hard_mode: bool,
    hist: Seq<usize>,
    rng: u64,
) -> Option<(usize, u64)> {
    let cands = trial_candidates(words, answer, hist);
    if cands.len() == 0 {
        None
    } else if cands.len() == 1 {
        Some((cands[0], rng))
    } else {
        let pool = trial_pool(words, answer, hard_mode, hist);
        if pool.len() == 0 {
            None
        } else {
            let r = xorshift_step(rng);
            Some((pool[((r as usize) as int) % (pool.len() as int)], r))
        }
    }
}

/// The guesses of a synthetic game that has made the guesses `hist` and may
/// make `steps` more, with the generator state at its end: guessing stops at
/// the answer, after the last step, or when no guess is left.
pub open spec fn trial_run(
    words: Seq<Word>,
    answer: Word,
    hard_mode: bool,
    hist: Seq<usize>,
    rng: u64,
    steps: nat,
) -> (Seq<usize>, u64)
    decreases steps,
{
    if steps == 0 {
        (hist, rng)
    } else {
        match next_guess(words, answer, hard_mode, hist, rng) {
            None => (hist, rng),
            Some((g, r)) => if words[g as int] == answer {
                (hist.push(g), r)
            } else {
                trial_run(words, answer, hard_mode, hist.push(g), r, (steps - 1) as nat)
            },
        }
    }
}

/// `out` reports the guesses `hist`: each word, its row against `answer` and
/// the number of words that agree with every guess up to it.
pub open spec fn describes_guesses(
    out: Seq<TrialGuess>,
    words: Seq<Word>,
    answer: Word,
    hist: Seq<usize>,
) -> bool {
    &&& out.len() == hist.len()
    &&& forall|t: int|
        0 <= t < out.len() ==> {
            &&& (#[trigger] out[t]).word@ == word_text(words[hist[t] as int])
            &&& out[t].match_text@ == match_text(score_spec(words[hist[t] as int], answer))
            &&& out[t].remaining == trial_candidates(words, answer, hist.take(t + 1)).len()
        }
}

/// The hard-mode state after some guesses is determined by them.
pub proof fn lemma_state_after_unique(
    words: Seq<Word>,
    answer: Word,
    hist: Seq<usize>,
    t1: HardModeState,
    t2: HardModeState,
)
    requires
        is_state_after(words, answer, hist, t1),
        is_state_after(words, answer, hist, t2),
    ensures
        t1 == t2,
{
    let p1 = choose|path: Seq<HardModeState>|
        #[trigger] is_guess_path(words, answer, hist, path) && path.last() == t1;
    let p2 = choose|path: Seq<HardModeState>|
        #[trigger] is_guess_path(words, answer, hist, path) && path.last() == t2;
    assert forall|i: int| 0 <= i <= hist.len() implies p1[i] == p2[i] by {
        lemma_paths_agree(words, answer, hist, p1, p2, i);
    }
}

proof fn lemma_paths_agree(
    words: Seq<Word>,
    answer: Word,
    hist: Seq<usize>,
    p1: Seq<HardModeState>,
    p2: Seq<HardModeState>,
    i: int,
)
    requires
        is_guess_path(words, answer, hist, p1),
        is_guess_path(words, answer, hist, p2),
        0 <= i <= hist.len(),
    ensures
        p1[i] == p2[i],
    decreases i,
{
    if i == 0 {
        let a = p1[0];
        let b = p2[0];
        assert(a.greens =~= b.greens);
        assert(a.min_counts =~= b.min_counts);
        assert forall|c: int| 0 <= c < crate::word::ALPHABET implies a.forbidden[c] == b.forbidden[c] by {
            assert(a.forbidden[c] =~= b.forbidden[c]);
        }
        assert(a.forbidden =~= b.forbidden);
    } else {
        lemma_paths_agree(words, answer, hist, p1, p2, i - 1);
        let j = i - 1;
        let g = words[hist[j] as int];
        assert(is_update(p1[j], words[hist[j] as int], score_spec(words[hist[j] as int], answer), p1[j + 1]));
        assert(is_update(p2[j], words[hist[j] as int], score_spec(words[hist[j] as int], answer), p2[j + 1]));
        lemma_update_unique(p1[j], g, score_spec(g, answer), p1[i], p2[i]);
    }
}

/// Filtering keeps entries below a bound below it.
pub proof fn lemma_filter_bounded(s: Seq<usize>, p: spec_fn(usize) -> bool, n: int)
    requires
        forall|i: int| 0 <= i < s.len() ==> #[trigger] s[i] < n,
    ensures
        forall|i: int| 0 <= i < s.filter(p).len() ==> #[trigger] s.filter(p)[i] < n,
    decreases s.len(),
{
    reveal_with_fuel(Seq::filter, 1);
    if s.len() > 0 {
        assert forall|i: int| 0 <= i < s.drop_last().len() implies #[trigger] s.drop_last()[i] < n by {
            assert(s.drop_last()[i] == s[i]);
        }
        lemma_filter_bounded(s.drop_last(), p, n);
        let sub = s.drop_last().filter(p);
        assert(s[s.len() - 1] < n);
        assert forall|i: int| 0 <= i < s.filter(p).len() implies #[trigger] s.filter(p)[i] < n by {
            if i < sub.len() {
                assert(s.filter(p)[i] == sub[i]);
            }
        }
    }
}

/// Whether two words are the same.
fn same_word(a: &Word, b: &Word) -> (same: bool)
    ensures
        same == (*a == *b),
{
    for i in 0..WORD_LEN
        invariant
            forall|j: int| 0 <= j < i ==> #[trigger] a[j] == b[j],
    {
        if a[i] != b[i] {
            return false;
        }
    }
    assert(*a =~= *b);
    true
}

/// The entries of `list` that are not in `guessed`, in their order.
fn not_guessed(list: &Vec<usize>, guessed: &HashSet<usize>) -> (kept: Vec<usize>)
    ensures
        kept@ == list@.filter(|i: usize| !guessed@.contains(i)),
{
    let ghost pred = |i: usize| !guessed@.contains(i);
    let mut kept: Vec<usize> = Vec::new();
    for k in 0..list.len()
        invariant
            pred == (|i: usize| !guessed@.contains(i)),
            kept@ == list@.take(k as int).filter(pred),
    {
        let i = list[k];
        if !guessed.contains(&i) {
            kept.push(i);
        }
        proof {
            let next = list@.take(k + 1);
            assert(next.drop_last() =~= list@.take(k as int));
            reveal_with_fuel(Seq::filter, 1);
        }
    }
    proof {
        assert(list@.take(list@.len() as int) =~= list@);
    }
    kept
}

/// Plays one synthetic game against the word at `answer_idx`: each guess is
/// the only word that still agrees with every row, or a random word of the
/// pool; the game ends at the answer, after six guesses, or when no guess is
/// left.
pub fn run_trial(
    dict: &Dictionary,
    answer_idx: usize,
    answer_word: &str,
    rng: &mut XorShift64,
    hard_mode: bool,
) -> (game: TrialGame)
    requires
        answer_idx < dict@.len(),
    ensures
        ({
            let run = trial_run(
                dict@,
                dict@[answer_idx as int],
                hard_mode,
                Seq::empty(),
                old(rng)@,
                MAX_GUESSES as nat,
            );
            &&& final(rng)@ == run.1
            &&& describes_guesses(game.guesses@, dict@, dict@[answer_idx as int], run.0)
        }),
        game.answer@ == answer_word@.map_values(|c: char| ascii_lower(c)),
{
    let ghost words = dict@;
    let n = dict.len();
    let answer = dict.word(answer_idx);
    let answer_counts = dict.counts(answer_idx);
    let ghost start = trial_run(words, answer, hard_mode, Seq::empty(), rng@, MAX_GUESSES as nat);

    let mut candidate_idxs: Vec<usize> = Vec::new();
    for i in 0..n
        invariant
            n == words.len(),
            candidate_idxs@ == index_range(words.len()).take(i as int),
    {
        candidate_idxs.push(i);
        assert(candidate_idxs@ =~= index_range(words.len()).take(i + 1));
    }
    assert(candidate_idxs@ =~= index_range(words.len()));
    let mut all_idxs: Vec<usize> = Vec::new();
    for i in 0..n
        invariant
            n == words.len(),
            all_idxs@ == index_range(words.len()).take(i as int),
    {
        all_idxs.push(i);
        assert(all_idxs@ =~= index_range(words.len()).take(i + 1));
    }
    assert(all_idxs@ =~= index_range(words.len()));

    let mut state = initial_hard_mode_state();
    let mut guessed: HashSet<usize> = HashSet::new();
    let mut guesses: Vec<TrialGuess> = Vec::new();
    let ghost mut hist: Seq<usize> = Seq::empty();
    proof {
        let path = seq![state];
        assert(is_guess_path(words, answer, hist, path));
        assert(describes_guesses(guesses@, words, answer, hist));
    }
    let mut step: usize = 0;
    loop
        invariant_except_break
            step <= MAX_GUESSES,
            start == trial_run(words, answer, hard_mode, hist, rng@, (MAX_GUESSES - step) as nat),
        invariant
            words == dict@,
            n == words.len(),
            answer_idx < n,
            answer == words[answer_idx as int],
            is_word(answer),
            crate::word::counts_of(*answer_counts, answer),
            forall|w: int| 0 <= w < n ==> is_word(#[trigger] words[w]),
            all_idxs@ == index_range(words.len()),
            candidate_idxs@ == trial_candidates(words, answer, hist),
            forall|a: int| 0 <= a < candidate_idxs@.len() ==> #[trigger] candidate_idxs@[a] < n,
            is_state_after(words, answer, hist, state),
            forall|i: usize| #[trigger] guessed@.contains(i) <==> hist.contains(i),
            describes_guesses(guesses@, words, answer, hist),
        ensures
            start == (hist, rng@),
            describes_guesses(guesses@, words, answer, hist),
        decreases MAX_GUESSES - step,
    {
        if step == MAX_GUESSES {
            break;
        }
        let ghost old_rng = rng@;
        if candidate_idxs.len() == 0 {
            break;
        }
        let guess_idx;
        if candidate_idxs.len() == 1 {
            guess_idx = candidate_idxs[0];
        } else {
            let base = if hard_mode {
                hard_mode_guess_idxs(dict, &state)
            } else {
                all_idxs.clone()
            };
            let guess_pool = not_guessed(&base, &guessed);
            proof {
                let allowed = |i: usize| hard_mode_allows(state, words[i as int]);
                let unguessed = |i: usize| !guessed@.contains(i);
                let spec_pred = |i: usize| (!hard_mode || allowed_after(words, answer, hist, i)) && !hist.contains(i);
                if hard_mode {
                    lemma_filter_filter(index_range(words.len()), allowed, unguessed);
                    assert forall|k: int| 0 <= k < index_range(words.len()).len() implies
                        (|x: usize| allowed(x) && unguessed(x))(#[trigger] index_range(words.len())[k])
                        == spec_pred(index_range(words.len())[k]) by {
                        let i = index_range(words.len())[k];
                        if allowed_after(words, answer, hist, i) {
                            let t = choose|t: HardModeState|
                                #[trigger] is_state_after(words, answer, hist, t) && hard_mode_allows(t, words[i as int]);
                            lemma_state_after_unique(words, answer, hist, t, state);
                        }
                    }
                    lemma_filter_congruent(index_range(words.len()), |x: usize| allowed(x) && unguessed(x), spec_pred);
                } else {
                    assert(base@ == index_range(words.len()));
                    assert forall|k: int| 0 <= k < index_range(words.len()).len() implies
                        unguessed(#[trigger] index_range(words.len())[k])
                        == spec_pred(index_range(words.len())[k]) by {}
                    lemma_filter_congruent(index_range(words.len()), unguessed, spec_pred);
                }
                assert(guess_pool@ == trial_pool(words, answer, hard_mode, hist));
                lemma_filter_bounded(index_range(words.len()), spec_pred, n as int);
            }
            if guess_pool.len() == 0 {
                break;
            }
            let pick = rng.gen_range(guess_pool.len());
            guess_idx = guess_pool[pick];
        }
        proof {
            assert(next_guess(words, answer, hard_mode, hist, old_rng) == Some((guess_idx, rng@)));
            let k = (MAX_GUESSES - step) as nat;
            if words[guess_idx as int] == answer {
                assert(start == (hist.push(guess_idx), rng@));
            } else {
                assert(start == trial_run(words, answer, hard_mode, hist.push(guess_idx), rng@, (k - 1) as nat));
            }
        }
        let ghost next_hist = hist.push(guess_idx);
        guessed.insert(guess_idx);
        let guess = dict.word(guess_idx);
        let row = score_match(&guess, &answer, answer_counts);
        let target = match_code(&row);

        let ghost agree = |c: usize| agrees(words, answer, guess_idx, c);
        let mut kept: Vec<usize> = Vec::new();
        for k in 0..candidate_idxs.len()
            invariant
                words == dict@,
                n == words.len(),
                forall|w: int| 0 <= w < n ==> is_word(#[trigger] words[w]),
                guess_idx < n,
                guess == words[guess_idx as int],
                row@ == score_spec(guess, answer),
                target == code_prefix(row@, WORD_LEN as int),
                crate::word::is_match(row),
                forall|a: int| 0 <= a < candidate_idxs@.len() ==> #[trigger] candidate_idxs@[a] < n,
                agree == (|c: usize| agrees(words, answer, guess_idx, c)),
                kept@ == candidate_idxs@.take(k as int).filter(agree),
        {
            let c = candidate_idxs[k];
            let code = score_code(&guess, &dict.word(c), dict.counts(c));
            proof {
                assert(is_row(score_spec(guess, words[c as int])));
                if code == target {
                    lemma_match_code_injective(score_spec(guess, words[c as int]), row@);
                }
            }
            if code == target {
                kept.push(c);
            }
            proof {
                let next = candidate_idxs@.take(k + 1);
                assert(next.drop_last() =~= candidate_idxs@.take(k as int));
                reveal_with_fuel(Seq::filter, 1);
            }
        }
        proof {
            assert(candidate_idxs@.take(candidate_idxs@.len() as int) =~= candidate_idxs@);
            assert(next_hist.drop_last() =~= hist);
            assert(kept@ == trial_candidates(words, answer, next_hist));
            lemma_filter_bounded(candidate_idxs@, agree, n as int);
        }
        candidate_idxs = kept;

        guesses.push(TrialGuess {
            word: word_to_string(&guess),
            match_text: match_to_string(&row),
            remaining: candidate_idxs.len(),
        });
        let next_state = update_hard_mode_state(&state, &guess, &row);
        proof {
            let path = choose|path: Seq<HardModeState>|
                #[trigger] is_guess_path(words, answer, hist, path) && path.last() == state;
            let path2 = path.push(next_state);
            assert(is_guess_path(words, answer, next_hist, path2));
            assert forall|t: int| 0 <= t < guesses@.len() - 1 implies #[trigger] next_hist.take(t + 1) == hist.take(t + 1) by {
                assert(next_hist.take(t + 1) =~= hist.take(t + 1));
            }
            assert(next_hist.take(next_hist.len() as int) =~= next_hist);
            assert forall|i: usize| #[trigger] guessed@.contains(i) <==> next_hist.contains(i) by {
                if i == guess_idx {
                    assert(next_hist[next_hist.len() - 1] == i);
                }
                if next_hist.contains(i) && i != guess_idx {
                    let j = choose|j: int| 0 <= j < next_hist.len() && next_hist[j] == i;
                    assert(hist[j] == i);
                }
                if hist.contains(i) {
                    let j = choose|j: int| 0 <= j < hist.len() && hist[j] == i;
                    assert(next_hist[j] == i);
                }
            }
            hist = next_hist;
        }
        state = next_state;
        step = step + 1;
        if same_word(&guess, &answer) {
            break;
        }
    }
    TrialGame { answer: to_ascii_lowercase(answer_word), guesses }
}

} // verus!
