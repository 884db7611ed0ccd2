//! The independent-row pass: which answers could explain each score row on
//! its own, with some unknown guess from the list.
use vstd::prelude::*;

use crate::dictionary::Dictionary;
use crate::score::{score_code, score_spec};
use crate::word::{code_prefix, is_match, is_row, lemma_match_code_injective, match_code, Match, Word, WORD_LEN};

verus! {

/// Some word of the list, played against the word at `solution`, scores
/// `row`.
pub open spec fn row_explained(words: Seq<Word>, solution: int, row: Match) -> bool {
    exists|g: int| 0 <= g < words.len() && #[trigger] score_spec(words[g], words[solution]) == row@
}

/// Every row of `rows` on its own is explained by the word at `solution`.
pub open spec fn fits_rows(words: Seq<Word>, rows: Seq<Match>, solution: int) -> bool {
    forall|r: int| 0 <= r < rows.len() ==> #[trigger] row_explained(words, solution, rows[r])
}

/// The positions `0..n` in increasing order.
pub open spec fn index_range(n: nat) -> Seq<usize> {
    Seq::new(n, |i: int| i as usize)
}

/// Number of `false` entries of `s`.
pub open spec fn count_false(s: Seq<bool>) -> nat
    decreases s.len(),
{
    if s.len() == 0 {
        0
    } else {
        count_false(s.drop_last()) + if s.last() {
            0nat
        } else {
            1nat
        }
    }
}

proof fn lemma_count_false_update(s: Seq<bool>, p: int)
    requires
        0 <= p < s.len(),
        !s[p],
    ensures
        count_false(s.update(p, true)) + 1 == count_false(s),
    decreases s.len(),
{
    let t = s.update(p, true);
    if p == s.len() - 1 {
        assert(t.drop_last() =~= s.drop_last());
    } else {
        lemma_count_false_update(s.drop_last(), p);
        assert(t.drop_last() =~= s.drop_last().update(p, true));
    }
}

proof fn lemma_count_false_zero(s: Seq<bool>, p: int)
    requires
        count_false(s) == 0,
        0 <= p < s.len(),
    ensures
        s[p],
    decreases s.len(),
{
    if p < s.len() - 1 {
        lemma_count_false_zero(s.drop_last(), p);
    }
}

proof fn lemma_count_false_positive(s: Seq<bool>, p: int)
    requires
        0 <= p < s.len(),
        !s[p],
    ensures
        count_false(s) > 0,
    decreases s.len(),
{
    if p < s.len() - 1 {
        lemma_count_false_positive(s.drop_last(), p);
    }
}

proof fn lemma_count_false_all(n: nat)
    ensures
        count_false(Seq::new(n, |i: int| false)) == n,
    decreases n,
{
    if n > 0 {
        lemma_count_false_all((n - 1) as nat);
        assert(Seq::new(n, |i: int| false).drop_last() =~= Seq::new((n - 1) as nat, |i: int| false));
    }
}

/// Narrows `possible` by one row: a position stays possible only where some
/// word of the list, played against its word, scores `row`.
pub fn prefilter_row(dict: &Dictionary, possible: &mut Vec<bool>, row: &Match)
    requires
        old(possible)@.len() == dict@.len(),
        is_match(*row),
    ensures
        final(possible)@.len() == old(possible)@.len(),
        forall|i: int|
            0 <= i < old(possible)@.len() ==> #[trigger] final(possible)@[i] == (old(possible)@[i]
                && row_explained(dict@, i, *row)),
{
    let ghost words = dict@;
    let n = dict.len();
    let target = match_code(row);
    let mut candidate_idxs: Vec<usize> = Vec::new();
    for idx in 0..n
        invariant
            n == possible@.len(),
            forall|a: int| 0 <= a < candidate_idxs@.len() ==> #[trigger] candidate_idxs@[a] < idx,
            forall|a: int, b: int| 0 <= a < b < candidate_idxs@.len() ==> candidate_idxs@[a] < candidate_idxs@[b],
            forall|a: int| 0 <= a < candidate_idxs@.len() ==> possible@[#[trigger] candidate_idxs@[a] as int],
            forall|i: int| 0 <= i < idx && possible@[i] ==> #[trigger] candidate_idxs@.contains(i as usize),
    {
        let ghost before_all = candidate_idxs@;
        if possible[idx] {
            candidate_idxs.push(idx);
            proof {
                assert(candidate_idxs@[candidate_idxs@.len() - 1] == idx);
                assert(candidate_idxs@.contains(idx));
            }
        }
        proof {
            assert forall|i: int| 0 <= i < idx + 1 && possible@[i] implies #[trigger] candidate_idxs@.contains(i as usize) by {
                if i < idx {
                    assert(before_all.contains(i as usize));
                    let j = choose|j: int| 0 <= j < before_all.len() && before_all[j] == i as usize;
                    assert(candidate_idxs@[j] == i as usize);
                }
            }
        }
    }
    let num_candidates = candidate_idxs.len();
    let mut possible_for_match: Vec<bool> = Vec::new();
    for pos in 0..num_candidates
        invariant
            possible_for_match@ == Seq::new(pos as nat, |i: int| false),
    {
        possible_for_match.push(false);
        assert(possible_for_match@ =~= Seq::new((pos + 1) as nat, |i: int| false));
    }
    let mut remaining = num_candidates;
    proof {
        lemma_count_false_all(num_candidates as nat);
    }

    let mut guess_idx: usize = 0;
    while guess_idx < n && remaining != 0
        invariant
            words == dict@,
            n == words.len(),
            guess_idx <= n,
            forall|i: int| 0 <= i < n ==> crate::word::is_word(#[trigger] words[i]),
            is_match(*row),
            target == code_prefix(row@, WORD_LEN as int),
            num_candidates == candidate_idxs@.len(),
            forall|a: int| 0 <= a < num_candidates ==> #[trigger] candidate_idxs@[a] < n,
            possible_for_match@.len() == num_candidates,
            remaining == count_false(possible_for_match@),
            forall|a: int|
                0 <= a < num_candidates ==> #[trigger] possible_for_match@[a] == exists|g: int|
                    0 <= g < guess_idx && #[trigger] score_spec(words[g], words[candidate_idxs@[a] as int])
                        == row@,
        decreases n - guess_idx,
    {
        let guess = dict.word(guess_idx);
        for pos in 0..num_candidates
            invariant
                words == dict@,
                n == words.len(),
                guess_idx < n,
                guess == words[guess_idx as int],
                forall|i: int| 0 <= i < n ==> crate::word::is_word(#[trigger] words[i]),
                is_match(*row),
                target == code_prefix(row@, WORD_LEN as int),
                num_candidates == candidate_idxs@.len(),
                forall|a: int| 0 <= a < num_candidates ==> #[trigger] candidate_idxs@[a] < n,
                possible_for_match@.len() == num_candidates,
                remaining == count_false(possible_for_match@),
                forall|a: int|
                    0 <= a < pos ==> #[trigger] possible_for_match@[a] == exists|g: int|
                        0 <= g < guess_idx + 1 && #[trigger] score_spec(words[g], words[candidate_idxs@[a] as int])
                            == row@,
                forall|a: int|
                    pos <= a < num_candidates ==> #[trigger] possible_for_match@[a] == exists|g: int|
                        0 <= g < guess_idx && #[trigger] score_spec(words[g], words[candidate_idxs@[a] as int])
                            == row@,
        {
            let solution_idx = candidate_idxs[pos];
            if !possible_for_match[pos] {
                let solution = dict.word(solution_idx);
                let code = score_code(&guess, &solution, dict.counts(solution_idx));
                proof {
                    assert(is_row(score_spec(guess, solution)));
                    if code == target {
                        lemma_match_code_injective(score_spec(guess, solution), row@);
                    }
                }
                if code == target {
                    proof {
                        lemma_count_false_update(possible_for_match@, pos as int);
                        lemma_count_false_positive(possible_for_match@, pos as int);
                    }
                    possible_for_match.set(pos, true);
                    remaining = remaining - 1;
                }
            }
        }
        guess_idx = guess_idx + 1;
    }

    proof {
        assert forall|a: int| 0 <= a < num_candidates implies #[trigger] possible_for_match@[a] == row_explained(words, candidate_idxs@[a] as int, *row) by {
            if remaining == 0 {
                lemma_count_false_zero(possible_for_match@, a);
            }
            if row_explained(words, candidate_idxs@[a] as int, *row) {
                let g = choose|g: int| 0 <= g < words.len() && #[trigger] score_spec(words[g], words[candidate_idxs@[a] as int]) == row@;
            }
        }
    }

    for pos in 0..num_candidates
        invariant
            num_candidates == candidate_idxs@.len(),
            forall|a: int| 0 <= a < num_candidates ==> #[trigger] candidate_idxs@[a] < n,
            forall|a: int, b: int| 0 <= a < b < candidate_idxs@.len() ==> candidate_idxs@[a] < candidate_idxs@[b],
            forall|a: int| 0 <= a < candidate_idxs@.len() ==> old(possible)@[#[trigger] candidate_idxs@[a] as int],
            forall|i: int| 0 <= i < n && old(possible)@[i] ==> #[trigger] candidate_idxs@.contains(i as usize),
            possible_for_match@.len() == num_candidates,
            forall|a: int| 0 <= a < num_candidates ==> #[trigger] possible_for_match@[a] == row_explained(words, candidate_idxs@[a] as int, *row),
            possible@.len() == n,
            n == old(possible)@.len(),
            forall|i: int| 0 <= i < n ==> #[trigger] possible@[i] == if exists|a: int| 0 <= a < pos && candidate_idxs@[a] == i {
                row_explained(words, i, *row)
            } else {
                old(possible)@[i]
            },
    {
        let solution_idx = candidate_idxs[pos];
        possible.set(solution_idx, possible_for_match[pos]);
        proof {
            assert forall|i: int| 0 <= i < n implies #[trigger] possible@[i] == if exists|a: int| 0 <= a < pos + 1 && candidate_idxs@[a] == i {
                row_explained(words, i, *row)
            } else {
                old(possible)@[i]
            } by {
                if i != solution_idx {
                    if exists|a: int| 0 <= a < pos + 1 && candidate_idxs@[a] == i {
                        let a = choose|a: int| 0 <= a < pos + 1 && candidate_idxs@[a] == i;
                        assert(a < pos);
                    }
                }
            }
        }
    }
    proof {
        assert forall|i: int| 0 <= i < n implies #[trigger] possible@[i] == (old(possible)@[i] && row_explained(words, i, *row)) by {
            if old(possible)@[i] {
                assert(candidate_idxs@.contains(i as usize));
                let a = choose|a: int| 0 <= a < candidate_idxs@.len() && candidate_idxs@[a] == i as usize;
            } else {
                if exists|a: int| 0 <= a < num_candidates && candidate_idxs@[a] == i {
                    let a = choose|a: int| 0 <= a < num_candidates && candidate_idxs@[a] == i;
                    assert(old(possible)@[candidate_idxs@[a] as int]);
                }
            }
        }
    }
}

/// Number of `true` entries of `s`.
pub open spec fn count_true(s: Seq<bool>) -> nat
    decreases s.len(),
{
    if s.len() == 0 {
        0
    } else {
        count_true(s.drop_last()) + if s.last() {
            1nat
        } else {
            0nat
        }
    }
}

/// Number of positions still possible.
pub fn count_possible(possible: &Vec<bool>) -> (n: usize)
    ensures
        n == count_true(possible@),
{
    let mut n: usize = 0;
    for i in 0..possible.len()
        invariant
            n == count_true(possible@.take(i as int)),
            n <= i,
    {
        proof {
            assert(possible@.take(i + 1).drop_last() =~= possible@.take(i as int));
        }
        if possible[i] {
            n = n + 1;
        }
    }
    assert(possible@.take(possible@.len() as int) =~= possible@);
    n
}

/// The positions where `possible` holds, in increasing order.
pub fn possible_indices(possible: &Vec<bool>) -> (idxs: Vec<usize>)
    ensures
        idxs@ == index_range(possible@.len()).filter(|i: usize| possible@[i as int]),
{
    let ghost pred = |i: usize| possible@[i as int];
    let mut idxs: Vec<usize> = Vec::new();
    let n = possible.len();
    for i in 0..n
        invariant
            n == possible@.len(),
            pred == (|i: usize| possible@[i as int]),
            idxs@ == index_range(n as nat).take(i as int).filter(pred),
    {
        if possible[i] {
            idxs.push(i);
        }
        proof {
            let next = index_range(n as nat).take(i + 1);
            assert(next.drop_last() =~= index_range(n as nat).take(i as int));
            assert(next.last() == i);
            reveal_with_fuel(Seq::filter, 1);
        }
    }
    proof {
        assert(index_range(n as nat).take(n as int) =~= index_range(n as nat));
    }
    idxs
}

/// Positions, in increasing order, of the words that explain every row of
/// `matches` on its own, each row with some guess from the list.
pub fn independent_match_exists(dict: &Dictionary, matches: &Vec<Match>) -> (possible_idxs: Vec<usize>)
    requires
        forall|r: int| 0 <= r < matches@.len() ==> is_match(#[trigger] matches@[r]),
    ensures
        possible_idxs@ == index_range(dict@.len()).filter(|i: usize| fits_rows(dict@, matches@, i as int)),
{
    let n = dict.len();
    let mut possible: Vec<bool> = Vec::new();
    for i in 0..n
        invariant
            possible@ == Seq::new(i as nat, |j: int| true),
    {
        possible.push(true);
        assert(possible@ =~= Seq::new((i + 1) as nat, |j: int| true));
    }
    let num_rows = matches.len();
    let mut alive = n;
    let mut r: usize = 0;
    proof {
        assert forall|i: int| 0 <= i < n implies #[trigger] possible@[i] == fits_rows(dict@, matches@.take(0), i) by {}
    }
    while r < num_rows && alive != 0
        invariant
            n == dict@.len(),
            num_rows == matches@.len(),
            r <= num_rows,
            forall|q: int| 0 <= q < matches@.len() ==> is_match(#[trigger] matches@[q]),
            possible@.len() == n,
            forall|i: int| 0 <= i < n ==> #[trigger] possible@[i] == fits_rows(dict@, matches@.take(r as int), i),
            alive == 0 ==> forall|j: int| 0 <= j < n ==> !#[trigger] possible@[j],
        decreases num_rows - r,
    {
        let ghost before = possible@;
        prefilter_row(dict, &mut possible, &matches[r]);
        proof {
            assert forall|i: int| 0 <= i < n implies #[trigger] possible@[i] == fits_rows(dict@, matches@.take(r + 1), i) by {
                let pre = matches@.take(r as int);
                let post = matches@.take(r + 1);
                assert(before[i] == fits_rows(dict@, pre, i));
                if fits_rows(dict@, post, i) {
                    assert forall|q: int| 0 <= q < pre.len() implies #[trigger] row_explained(dict@, i, pre[q]) by {
                        assert(post[q] == pre[q]);
                        assert(row_explained(dict@, i, post[q]));
                    }
                    assert(row_explained(dict@, i, post[r as int]));
                }
                if possible@[i] {
                    assert forall|q: int| 0 <= q < post.len() implies #[trigger] row_explained(dict@, i, post[q]) by {
                        if q < r {
                            assert(post[q] == pre[q]);
                            assert(row_explained(dict@, i, pre[q]));
                        }
                    }
                }
            }
        }
        alive = 0;
        for i in 0..n
            invariant
                possible@.len() == n,
                alive <= i,
                alive == 0 ==> forall|j: int| 0 <= j < i ==> !#[trigger] possible@[j],
        {
            if possible[i] {
                alive = alive + 1;
            }
        }
        r = r + 1;
    }
    proof {
        assert forall|i: int| 0 <= i < n implies #[trigger] possible@[i] == fits_rows(dict@, matches@, i) by {
            let pre = matches@.take(r as int);
            if r == num_rows {
                assert(pre =~= matches@);
            } else {
                assert(!possible@[i]);
                assert(!fits_rows(dict@, pre, i));
                let q = choose|q: int| 0 <= q < pre.len() && !#[trigger] row_explained(dict@, i, pre[q]);
                assert(pre[q] == matches@[q]);
            }
        }
    }
    let result = possible_indices(&possible);
    proof {
        let p1 = |i: usize| possible@[i as int];
        let p2 = |i: usize| fits_rows(dict@, matches@, i as int);
        assert forall|i: int| 0 <= i < n implies #[trigger] index_range(n as nat)[i] == i as usize by {}
        assert(index_range(n as nat).filter(p1) == index_range(n as nat).filter(p2)) by {
            lemma_filter_congruent(index_range(n as nat), p1, p2);
        }
    }
    result
}

/// Filtering a sequence by two predicates that agree on its elements gives
/// the same result.
pub proof fn lemma_filter_congruent(s: Seq<usize>, p1: spec_fn(usize) -> bool, p2: spec_fn(usize) -> bool)
    requires
        forall|i: int| 0 <= i < s.len() ==> p1(#[trigger] s[i]) == p2(s[i]),
    ensures
        s.filter(p1) == s.filter(p2),
    decreases s.len(),
{
    reveal_with_fuel(Seq::filter, 1);
    if s.len() > 0 {
        lemma_filter_congruent(s.drop_last(), p1, p2);
        assert(p1(s[s.len() - 1]) == p2(s[s.len() - 1]));
    }
}

/// Filtering twice is filtering once by both predicates.
pub proof fn lemma_filter_filter(s: Seq<usize>, p1: spec_fn(usize) -> bool, p2: spec_fn(usize) -> bool)
    ensures
        s.filter(p1).filter(p2) == s.filter(|x: usize| p1(x) && p2(x)),
    decreases s.len(),
{
    reveal_with_fuel(Seq::filter, 1);
    let both = |x: usize| p1(x) && p2(x);
    if s.len() > 0 {
        lemma_filter_filter(s.drop_last(), p1, p2);
        let last = s.last();
        if p1(last) {
            assert(s.filter(p1) == s.drop_last().filter(p1).push(last));
            assert(s.filter(p1).drop_last() =~= s.drop_last().filter(p1));
        } else {
            assert(s.filter(p1) == s.drop_last().filter(p1));
        }
    } else {
        assert(s.filter(p1) =~= Seq::<usize>::empty());
    }
}

} // verus!
