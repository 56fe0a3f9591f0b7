pub mod constants;
pub mod pareto_front;
pub mod progress_bound_solver;
pub mod quality_bound_solver;
pub mod relaxed;
pub mod upper_bound_solver;

use vstd::prelude::*;

use crate::game::settings::Settings;
use crate::game::state::InProgress;
use crate::game::units::{Progress, Quality, CP};
use crate::solvers::upper_bound_solver::constants::{
    DURABILITY_COST, GREAT_STRIDES_COST, INNOVATION_COST, MANIPULATION_COST, WASTE_NOT_COST,
};
use crate::solvers::upper_bound_solver::progress_bound_solver::{progress_bound, ProgressBoundSolver};
use crate::solvers::upper_bound_solver::quality_bound_solver::{
    lemma_quality_bound_monotone, quality_bound, sat_sum, QualityBoundSolver,
};
use crate::solvers::upper_bound_solver::upper_bound_solver::sat_diff;

verus! {

/// All the CP a state can spend: its CP, plus its durability (12 CP per 5) and its running
/// effects counted in CP.
pub open spec fn cp_budget(state: InProgress) -> int {
    state.cp + (state.durability / 5) * DURABILITY_COST + state.effects.waste_not * WASTE_NOT_COST
        + state.effects.innovation * INNOVATION_COST + state.effects.veneration * WASTE_NOT_COST
        + state.effects.manipulation * MANIPULATION_COST + if state.effects.great_strides != 0 {
        GREAT_STRIDES_COST as int
    } else {
        0
    }
}

/// The least CP from `from` up to `budget` with which progress actions alone make `missing`
/// progress (from no effect), if any.
pub open spec fn first_progress_cp(settings: Settings, missing: u32, from: int, budget: int) -> Option<int>
    decreases budget + 1 - from,
{
    if from > budget {
        None
    } else if progress_bound(
        settings,
        progress_bound_solver::ReducedState { cp: from as CP, muscle_memory: 0, veneration: 0 },
    ) >= missing {
        Some(from)
    } else {
        first_progress_cp(settings, missing, from + 1, budget)
    }
}

/// The bound: the CP budget is split at the least CP that makes the missing progress; the
/// rest bounds the quality still to gain, added to the quality the craft has. 0 when no part
/// of the budget makes the progress.
pub open spec fn split_bound_spec(settings: Settings, state: InProgress) -> u32 {
    let budget = cp_budget(state);
    match first_progress_cp(settings, state.missing_progress.inner_value, 0, budget) {
        Some(cp_for_progress) => sat_sum(
            quality_bound(
                settings,
                quality_bound_solver::ReducedState {
                    cp: (budget - cp_for_progress) as CP,
                    inner_quiet: state.effects.inner_quiet,
                },
            ),
            sat_diff(settings.max_quality.inner_value, state.missing_quality.inner_value),
        ),
        None => 0,
    }
}

/// Where some CP from `from` up to `budget` makes the progress, the search finds one, no later.
proof fn lemma_first_progress_cp_found(settings: Settings, missing: u32, from: int, budget: int, x: int)
    requires
        from <= x <= budget,
        progress_bound(
            settings,
            progress_bound_solver::ReducedState { cp: x as CP, muscle_memory: 0, veneration: 0 },
        ) >= missing,
    ensures
        first_progress_cp(settings, missing, from, budget) matches Some(c) && from <= c <= x,
    decreases budget + 1 - from,
{
    if from < x && progress_bound(
        settings,
        progress_bound_solver::ReducedState { cp: from as CP, muscle_memory: 0, veneration: 0 },
    ) < missing {
        lemma_first_progress_cp_found(settings, missing, from + 1, budget, x);
    }
}

/// What the search finds makes the progress and lies in its range.
proof fn lemma_first_progress_cp_range(settings: Settings, missing: u32, from: int, budget: int)
    ensures
        first_progress_cp(settings, missing, from, budget) matches Some(c) ==> from <= c <= budget
            && progress_bound(
            settings,
            progress_bound_solver::ReducedState { cp: c as CP, muscle_memory: 0, veneration: 0 },
        ) >= missing,
    decreases budget + 1 - from,
{
    if from <= budget {
        lemma_first_progress_cp_range(settings, missing, from + 1, budget);
    }
}

/// The split bound never falls when the craft has more CP, or less progress or quality is
/// missing, all else equal.
pub proof fn lemma_split_bound_monotone(
    settings: Settings,
    state: InProgress,
    cp: CP,
    missing_progress: Progress,
    missing_quality: Quality,
)
    requires
        state.effects.inner_quiet <= 10,
        0 <= state.cp <= cp,
        state.durability >= 0,
        cp_budget(InProgress { cp, ..state }) <= i16::MAX,
        missing_progress.inner_value <= state.missing_progress.inner_value,
        missing_quality.inner_value <= state.missing_quality.inner_value,
    ensures
        split_bound_spec(settings, state) <= split_bound_spec(
            settings,
            InProgress { cp, missing_progress, missing_quality, ..state },
        ),
{
    let other = InProgress { cp, missing_progress, missing_quality, ..state };
    let budget = cp_budget(state);
    let budget2 = cp_budget(other);
    assert(budget2 == budget + (cp - state.cp));
    lemma_first_progress_cp_range(settings, state.missing_progress.inner_value, 0, budget);
    if let Some(c) = first_progress_cp(settings, state.missing_progress.inner_value, 0, budget) {
        lemma_first_progress_cp_found(settings, missing_progress.inner_value, 0, budget2, c);
        let c2 = first_progress_cp(settings, missing_progress.inner_value, 0, budget2)->0;
        lemma_quality_bound_monotone(
            settings,
            quality_bound_solver::ReducedState {
                cp: (budget - c) as CP,
                inner_quiet: state.effects.inner_quiet,
            },
            (budget2 - c2) - (budget - c),
        );
    }
}

/// Bounds the quality a craft can reach by splitting the CP it can spend between progress and
/// quality.
pub struct UpperBoundSolver {
    settings: Settings,
    progress_bound_solver: ProgressBoundSolver,
    quality_bound_solver: QualityBoundSolver,
}

impl UpperBoundSolver {
    pub closed spec fn settings_spec(&self) -> Settings {
        self.settings
    }

    pub closed spec fn wf(&self) -> bool {
        &&& self.progress_bound_solver.wf()
        &&& self.progress_bound_solver.settings_spec() == self.settings
        &&& self.quality_bound_solver.wf()
        &&& self.quality_bound_solver.settings_spec() == self.settings
    }

    pub fn new(settings: Settings) -> (r: Self)
        ensures
            r.wf(),
            r.settings_spec() == settings,
    {
        Self {
            settings,
            progress_bound_solver: ProgressBoundSolver::new(settings),
            quality_bound_solver: QualityBoundSolver::new(settings),
        }
    }

    /// An upper bound on the quality reachable from `state` (see `split_bound_spec`).
    pub fn quality_upper_bound(&mut self, state: &InProgress) -> (r: Quality)
        requires
            old(self).wf(),
            state.effects.inner_quiet <= 10,
            cp_budget(*state) <= i16::MAX,
            state.cp >= 0,
            state.durability >= 0,
        ensures
            final(self).wf(),
            final(self).settings_spec() == old(self).settings_spec(),
            r.inner_value == split_bound_spec(old(self).settings_spec(), *state),
    {
        let budget = Self::get_cp_budget(state);
        let ghost settings = self.settings;
        let missing = state.missing_progress.inner_value;
        let mut cp_for_progress: CP = 0;
        while cp_for_progress <= budget
            invariant
                self.wf(),
                self.settings == settings,
                settings == old(self).settings,
                budget == cp_budget(*state),
                missing == state.missing_progress.inner_value,
                0 <= cp_for_progress <= budget + 1,
                budget <= i16::MAX,
                state.effects.inner_quiet <= 10,
                first_progress_cp(settings, missing, 0, budget as int) == first_progress_cp(
                    settings,
                    missing,
                    cp_for_progress as int,
                    budget as int,
                ),
            ensures
                self.wf(),
                self.settings == settings,
                first_progress_cp(settings, missing, 0, budget as int) is None,
            decreases budget - cp_for_progress,
        {
            let progress = self.progress_bound_solver.get_progress_upper_bound(cp_for_progress, 0, 0);
            if progress.inner_value >= missing {
                let cp_for_quality = budget - cp_for_progress;
                let existing_quality = self.settings.max_quality.saturating_sub(state.missing_quality);
                let quality = self.quality_bound_solver.quality_upper_bound(
                    cp_for_quality,
                    state.effects.inner_quiet,
                );
                return quality.saturating_add(existing_quality);
            }
            if cp_for_progress == budget {
                assert(first_progress_cp(settings, missing, budget as int + 1, budget as int) is None);
                break ;
            }
            cp_for_progress = cp_for_progress + 1;
        }
        Quality::new(0)
    }

    /// All the CP `state` can spend (see `cp_budget`).
    fn get_cp_budget(state: &InProgress) -> (r: CP)
        requires
            state.cp >= 0,
            state.durability >= 0,
            cp_budget(*state) <= i16::MAX,
        ensures
            r == cp_budget(*state),
    {
        state.cp + (state.durability as CP / 5) * DURABILITY_COST + state.effects.waste_not as CP
            * WASTE_NOT_COST + state.effects.innovation as CP * INNOVATION_COST
            + state.effects.veneration as CP * WASTE_NOT_COST + state.effects.manipulation as CP
            * MANIPULATION_COST + if state.effects.great_strides != 0 {
            GREAT_STRIDES_COST
        } else {
            0
        }
    }
}

} // verus!
