//! The steps of the filters, one row or one candidate at a time, each with
//! the progress report that is due after it.
use vstd::prelude::*;

use crate::api::progress_due;
use crate::dictionary::Dictionary;
use crate::hard_mode::{hard_mode_solution_possible, solution_fits, GuessCache};
use crate::prefilter::{count_possible, count_true, prefilter_row, row_explained};
use crate::word::{games_valid, is_match, Game, Match};

verus! {

/// The pass that a progress report belongs to.
#[derive(Clone, Copy, Debug)]
pub enum Stage {
    /// The independent pass over the rows.
    Prefilter,
    /// The hard-mode pass over the candidates.
    HardMode,
}

/// A progress report: the pass, how many of its steps are done and of how
/// many, and how many words remain.
#[derive(Clone, Copy, Debug)]
pub struct Progress {
    pub stage: Stage,
    pub current: usize,
    pub total: usize,
    pub remaining: usize,
}

/// One row of the independent pass: narrows `possible` by `rows[row_idx]`
/// and reports the words left. The second result says that none is left,
/// so the pass stops.
pub fn prefilter_step(
    dict: &Dictionary,
    possible: &mut Vec<bool>,
    rows: &Vec<Match>,
    row_idx: usize,
) -> (res: (Progress, bool))
    requires
        row_idx < rows@.len(),
        old(possible)@.len() == dict@.len(),
        is_match(rows@[row_idx as int]),
    ensures
        final(possible)@.len() == old(possible)@.len(),
        forall|i: int|
            0 <= i < old(possible)@.len() ==> #[trigger] final(possible)@[i] == (old(possible)@[i]
                && row_explained(dict@, i, rows@[row_idx as int])),
        res.0 == (Progress {
            stage: Stage::Prefilter,
            current: (row_idx + 1) as usize,
            total: rows@.len() as usize,
            remaining: count_true(final(possible)@) as usize,
        }),
        res.1 == (count_true(final(possible)@) == 0),
{
    let total = rows.len();
    prefilter_row(dict, possible, &rows[row_idx]);
    let remaining = count_possible(possible);
    let report = Progress {
        stage: Stage::Prefilter,
        current: row_idx + 1,
        total,
        remaining,
    };
    (report, remaining == 0)
}

/// One candidate of the hard-mode pass: keeps `candidates[checked]` in
/// `survivors` where its word explains every game, and gives the report that
/// is due after it, if one is.
pub fn hard_mode_step(
    dict: &Dictionary,
    games: &Vec<Game>,
    candidates: &Vec<usize>,
    checked: usize,
    survivors: &mut Vec<usize>,
    cache: &mut GuessCache,
) -> (report: Option<Progress>)
    requires
        checked < candidates@.len(),
        candidates@[checked as int] < dict@.len(),
        games_valid(games@),
        old(cache).valid_for(dict@),
    ensures
        final(cache).valid_for(dict@),
        final(cache).keeps(old(cache)),
        final(survivors)@ == if solution_fits(dict@, games@, candidates@[checked as int]) {
            old(survivors)@.push(candidates@[checked as int])
        } else {
            old(survivors)@
        },
        report == if checked + 1 == candidates@.len() || checked % 25 == 0 {
            Some(
                Progress {
                    stage: Stage::HardMode,
                    current: (checked + 1) as usize,
                    total: candidates@.len() as usize,
                    remaining: final(survivors)@.len() as usize,
                },
            )
        } else {
            None
        },
{
    let solution_idx = candidates[checked];
    if hard_mode_solution_possible(dict, games, solution_idx, cache) {
        survivors.push(solution_idx);
    }
    if progress_due(checked, candidates.len()) {
        Some(
            Progress {
                stage: Stage::HardMode,
                current: checked + 1,
                total: candidates.len(),
                remaining: survivors.len(),
            },
        )
    } else {
        None
    }
}

} // verus!
