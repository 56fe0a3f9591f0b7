use rustc_hash::FxHashMap;
use vstd::prelude::*;

use crate::game::actions::Action;
use crate::game::conditions::Condition;
use crate::game::effects::Effects;
use crate::game::settings::Settings;
use crate::game::state::{InProgress, State};
use crate::game::units::{Durability, Progress, Quality, CP};
use crate::solvers::action_sequences::{upper_bound_sequence, upper_bound_sequences, UPPER_BOUND_SEQUENCES};
use crate::solvers::memo::{fx_get, fx_insert};
use crate::solvers::upper_bound_solver::pareto_front::{
    covers, is_rising_front, is_sorted_front, lemma_keep_improving_rising, lemma_merge_is_front,
    lemma_merge_sorted,
    lemma_shift_sorted, merge_fronts, merge_walk, shift_front, ParetoFrontBuilder, ParetoValue,
};
use crate::solvers::upper_bound_solver::relaxed::{is_relaxed, is_restoring, lemma_relaxed_run};

verus! {

/// The missing progress that a relaxed state starts from (100,000 potency): more than any
/// craft needs.
pub const INF_PROGRESS_VALUE: u32 = 2_000_000;

/// The missing quality that a relaxed state starts from (100,000 potency).
pub const INF_QUALITY_VALUE: u32 = 80_000_000;

/// The durability of a relaxed state.
pub const INF_DURABILITY: Durability = 100;

/// What a step of Manipulation is worth in CP: an eighth of its 96 CP.
pub const MANIPULATION_COST: CP = 12;

/// What 5 durability are worth in CP: what Manipulation pays for them.
pub const DURABILITY_COST: CP = 12;

/// The effects that the upper bound keeps.
#[derive(Debug, Clone, Copy, Default, PartialEq, Eq, Structural, Hash)]
pub struct ReducedEffects {
    pub inner_quiet: u8,
    pub waste_not: u8,
    pub innovation: u8,
    pub veneration: u8,
    pub great_strides: u8,
    pub muscle_memory: u8,
}

/// A state of the relaxed search: its CP, with durability counted in CP, and its effects.
#[derive(Debug, Clone, Copy, PartialEq, Eq, Structural, Hash)]
pub struct ReducedState {
    pub cp: CP,
    pub effects: ReducedEffects,
}

impl ReducedEffects {
    pub open spec fn from_effects_spec(e: Effects) -> ReducedEffects {
        ReducedEffects {
            inner_quiet: e.inner_quiet,
            waste_not: e.waste_not,
            innovation: e.innovation,
            veneration: e.veneration,
            great_strides: e.great_strides,
            muscle_memory: e.muscle_memory,
        }
    }

    pub fn from_effects(e: &Effects) -> (r: ReducedEffects)
        ensures
            r == Self::from_effects_spec(*e),
    {
        ReducedEffects {
            inner_quiet: e.inner_quiet,
            waste_not: e.waste_not,
            innovation: e.innovation,
            veneration: e.veneration,
            great_strides: e.great_strides,
            muscle_memory: e.muscle_memory,
        }
    }
}

impl ReducedState {
    /// A relaxed state after some actions: the durability it used, in steps of 5, is
    /// charged in CP.
    pub open spec fn from_state_spec(state: InProgress) -> ReducedState {
        ReducedState {
            cp: (state.cp - ((INF_DURABILITY - state.durability) / 5) * DURABILITY_COST) as CP,
            effects: ReducedEffects::from_effects_spec(state.effects),
        }
    }

    pub fn from_state(state: &InProgress) -> (r: ReducedState)
        requires
            is_relaxed(*state),
        ensures
            r == Self::from_state_spec(*state),
    {
        let used_durability = (INF_DURABILITY - state.durability) / 5;
        ReducedState {
            cp: state.cp - used_durability as CP * DURABILITY_COST,
            effects: ReducedEffects::from_effects(&state.effects),
        }
    }

    /// The state to search from: full durability, no Manipulation, no combo, and far more
    /// progress and quality missing than any craft has.
    pub open spec fn to_state_spec(self) -> InProgress {
        InProgress {
            durability: INF_DURABILITY,
            cp: self.cp,
            missing_progress: Progress { inner_value: INF_PROGRESS_VALUE },
            missing_quality: Quality { inner_value: INF_QUALITY_VALUE },
            effects: Effects {
                inner_quiet: self.effects.inner_quiet,
                waste_not: self.effects.waste_not,
                innovation: self.effects.innovation,
                veneration: self.effects.veneration,
                great_strides: self.effects.great_strides,
                muscle_memory: self.effects.muscle_memory,
                manipulation: 0,
            },
            combo: None,
        }
    }

    pub fn to_state(self) -> (r: InProgress)
        ensures
            r == self.to_state_spec(),
    {
        InProgress {
            durability: INF_DURABILITY,
            cp: self.cp,
            missing_progress: Progress::new(100_000),
            missing_quality: Quality::new(100_000),
            effects: Effects {
                inner_quiet: self.effects.inner_quiet,
                waste_not: self.effects.waste_not,
                innovation: self.effects.innovation,
                veneration: self.effects.veneration,
                great_strides: self.effects.great_strides,
                muscle_memory: self.effects.muscle_memory,
                manipulation: 0,
            },
            combo: None,
        }
    }

    /// Some CP left and at most ten inner quiet stacks.
    pub open spec fn is_valid(self) -> bool {
        self.cp >= 0 && self.effects.inner_quiet <= 10
    }
}

/// The key of a reduced state in the memo: its fields side by side in a `u64`.
pub open spec fn reduced_key(rs: ReducedState) -> u64 {
    (rs.cp as u16 as u64) | ((rs.effects.inner_quiet as u64) << 16u64) | ((
    rs.effects.waste_not as u64) << 24u64) | ((rs.effects.innovation as u64) << 32u64) | ((
    rs.effects.veneration as u64) << 40u64) | ((rs.effects.great_strides as u64) << 48u64) | ((
    rs.effects.muscle_memory as u64) << 56u64)
}

fn reduced_key_exec(rs: &ReducedState) -> (r: u64)
    ensures
        r == reduced_key(*rs),
{
    (rs.cp as u16 as u64) | ((rs.effects.inner_quiet as u64) << 16u64) | ((
    rs.effects.waste_not as u64) << 24u64) | ((rs.effects.innovation as u64) << 32u64) | ((
    rs.effects.veneration as u64) << 40u64) | ((rs.effects.great_strides as u64) << 48u64) | ((
    rs.effects.muscle_memory as u64) << 56u64)
}

/// Distinct reduced states have distinct keys.
pub proof fn lemma_reduced_key_injective(a: ReducedState, b: ReducedState)
    requires
        reduced_key(a) == reduced_key(b),
    ensures
        a == b,
{
    let (c1, i1, w1, n1, v1, g1, m1) = (
        a.cp,
        a.effects.inner_quiet,
        a.effects.waste_not,
        a.effects.innovation,
        a.effects.veneration,
        a.effects.great_strides,
        a.effects.muscle_memory,
    );
    let (c2, i2, w2, n2, v2, g2, m2) = (
        b.cp,
        b.effects.inner_quiet,
        b.effects.waste_not,
        b.effects.innovation,
        b.effects.veneration,
        b.effects.great_strides,
        b.effects.muscle_memory,
    );
    assert(c1 == c2 && i1 == i2 && w1 == w2 && n1 == n2) by (bit_vector)
        requires
            (c1 as u16 as u64) | ((i1 as u64) << 16u64) | ((w1 as u64) << 24u64) | ((n1 as u64)
                << 32u64) | ((v1 as u64) << 40u64) | ((g1 as u64) << 48u64) | ((m1 as u64) << 56u64)
                == (c2 as u16 as u64) | ((i2 as u64) << 16u64) | ((w2 as u64) << 24u64) | ((
            n2 as u64) << 32u64) | ((v2 as u64) << 40u64) | ((g2 as u64) << 48u64) | ((m2 as u64)
                << 56u64),
    ;
    assert(v1 == v2 && g1 == g2 && m1 == m2) by (bit_vector)
        requires
            (c1 as u16 as u64) | ((i1 as u64) << 16u64) | ((w1 as u64) << 24u64) | ((n1 as u64)
                << 32u64) | ((v1 as u64) << 40u64) | ((g1 as u64) << 48u64) | ((m1 as u64) << 56u64)
                == (c2 as u16 as u64) | ((i2 as u64) << 16u64) | ((w2 as u64) << 24u64) | ((
            n2 as u64) << 32u64) | ((v2 as u64) << 40u64) | ((g2 as u64) << 48u64) | ((m2 as u64)
                << 56u64),
    ;
}

/// The sequences of the search are short and restore nothing.
pub proof fn lemma_sequence_facts(i: int)
    requires
        0 <= i < UPPER_BOUND_SEQUENCES,
    ensures
        upper_bound_sequence(i).len() <= 3,
        forall|k: int|
            0 <= k < upper_bound_sequence(i).len() ==> !is_restoring(
                #[trigger] upper_bound_sequence(i)[k],
            ),
{
}

/// `a - b`, or 0 when `b` is larger.
pub open spec fn sat_diff(a: u32, b: u32) -> u32 {
    if b <= a {
        (a - b) as u32
    } else {
        0
    }
}

/// What sequence `i` of the search leaves from `rs`.
pub open spec fn step_state(settings: Settings, rs: ReducedState, i: int) -> State {
    State::InProgress(rs.to_state_spec()).use_actions_spec(
        upper_bound_sequence(i),
        Condition::Normal,
        settings,
    )
}

/// From a valid reduced state every sequence of the search is safe and leaves the craft in
/// progress or is refused; what it leaves is relaxed and has less CP once durability is
/// counted.
pub proof fn lemma_step(settings: Settings, rs: ReducedState, i: int)
    requires
        rs.is_valid(),
        0 <= i < UPPER_BOUND_SEQUENCES,
    ensures
        State::InProgress(rs.to_state_spec()).use_actions_safe(
            upper_bound_sequence(i),
            Condition::Normal,
            settings,
        ),
        step_state(settings, rs, i) is InProgress || step_state(settings, rs, i) is Invalid,
        step_state(settings, rs, i) matches State::InProgress(ns) ==> {
            &&& is_relaxed(ns)
            &&& ReducedState::from_state_spec(ns).cp < rs.cp
            &&& ReducedState::from_state_spec(ns).effects.inner_quiet <= 10
            &&& ns.missing_progress.inner_value <= INF_PROGRESS_VALUE
        },
{
    lemma_sequence_facts(i);
    lemma_relaxed_run(rs.to_state_spec(), upper_bound_sequence(i), settings);
    match step_state(settings, rs, i) {
        State::InProgress(ns) => {
            assert(ns.missing_progress.inner_value <= INF_PROGRESS_VALUE);
        },
        _ => {},
    }
}

/// The value every front starts from when it is imported empty.
pub open spec fn zero_value() -> ParetoValue {
    ParetoValue { progress: Progress { inner_value: 0 }, quality: Quality { inner_value: 0 } }
}

/// A front as the builder imports it: an empty front becomes the single value zero.
pub open spec fn imported(front: Seq<ParetoValue>) -> Seq<ParetoValue> {
    if front.len() == 0 {
        seq![zero_value()]
    } else {
        front
    }
}

/// The Pareto front of the progress and quality that the relaxed search reaches from `rs`:
/// for each sequence that leaves the craft in progress, what it adds on top of the front of
/// the state it leaves (or on its own, when no CP is left and it made progress), all merged.
pub open spec fn upper_bound_front(settings: Settings, rs: ReducedState) -> Seq<ParetoValue>
    decreases rs.cp, UPPER_BOUND_SEQUENCES + 1,
    when rs.is_valid()
{
    upper_bound_fold(settings, rs, UPPER_BOUND_SEQUENCES as int)
}

/// The front that the first `n` sequences of the search give from `rs`.
pub open spec fn upper_bound_fold(settings: Settings, rs: ReducedState, n: int) -> Seq<
    ParetoValue,
>
    decreases rs.cp, n,
    when rs.is_valid() && n <= UPPER_BOUND_SEQUENCES
{
    if n <= 0 {
        Seq::empty()
    } else {
        let acc = upper_bound_fold(settings, rs, n - 1);
        proof {
            lemma_step(settings, rs, n - 1);
        }
        match step_state(settings, rs, n - 1) {
            State::InProgress(ns) => {
                let progress = sat_diff(INF_PROGRESS_VALUE, ns.missing_progress.inner_value);
                let quality = sat_diff(INF_QUALITY_VALUE, ns.missing_quality.inner_value);
                let child = ReducedState::from_state_spec(ns);
                if child.cp > 0 {
                    merge_fronts(
                        acc,
                        shift_front(
                            imported(upper_bound_front(settings, child)),
                            progress as int,
                            quality as int,
                        ),
                    )
                } else if progress != 0 {
                    merge_fronts(acc, shift_front(seq![zero_value()], progress as int, quality as int))
                } else {
                    acc
                }
            },
            _ => acc,
        }
    }
}

/// One step of the fold, spelled out.
proof fn lemma_fold_step(settings: Settings, rs: ReducedState, n: int)
    requires
        rs.is_valid(),
        0 <= n < UPPER_BOUND_SEQUENCES,
    ensures
        upper_bound_fold(settings, rs, n + 1) == (match step_state(settings, rs, n) {
            State::InProgress(ns) => {
                let progress = sat_diff(INF_PROGRESS_VALUE, ns.missing_progress.inner_value);
                let quality = sat_diff(INF_QUALITY_VALUE, ns.missing_quality.inner_value);
                let child = ReducedState::from_state_spec(ns);
                if child.cp > 0 {
                    merge_fronts(
                        upper_bound_fold(settings, rs, n),
                        shift_front(
                            imported(upper_bound_front(settings, child)),
                            progress as int,
                            quality as int,
                        ),
                    )
                } else if progress != 0 {
                    merge_fronts(
                        upper_bound_fold(settings, rs, n),
                        shift_front(seq![zero_value()], progress as int, quality as int),
                    )
                } else {
                    upper_bound_fold(settings, rs, n)
                }
            },
            _ => upper_bound_fold(settings, rs, n),
        }),
{
    lemma_step(settings, rs, n);
    match step_state(settings, rs, n) {
        State::InProgress(ns) => {
            assert(ReducedState::from_state_spec(ns).is_valid() || ReducedState::from_state_spec(ns).cp < 0);
        },
        _ => {},
    }
}

/// Basic Synthesis, the second sequence of the search, always goes through from a valid
/// reduced state and makes progress.
proof fn lemma_basic_synthesis_step(settings: Settings, rs: ReducedState)
    requires
        rs.is_valid(),
    ensures
        step_state(settings, rs, 1) matches State::InProgress(ns) && sat_diff(
            INF_PROGRESS_VALUE,
            ns.missing_progress.inner_value,
        ) != 0,
{
    let s = rs.to_state_spec();
    let one = upper_bound_sequence(1);
    assert(one == seq![Action::BasicSynthesis]);
    assert(one[0] == Action::BasicSynthesis);
    assert(one.drop_first() =~= Seq::<Action>::empty());
    let next = s.use_action_spec(Action::BasicSynthesis, Condition::Normal, settings);
    assert(step_state(settings, rs, 1) == next.use_actions_spec(
        Seq::<Action>::empty(),
        Condition::Normal,
        settings,
    ));
    assert(next is InProgress);
}

/// Every front of the search is sorted by decreasing progress and is not empty.
pub proof fn lemma_front_sorted(settings: Settings, rs: ReducedState)
    requires
        rs.is_valid(),
    ensures
        is_sorted_front(upper_bound_front(settings, rs)),
        upper_bound_front(settings, rs).len() > 0,
    decreases rs.cp, UPPER_BOUND_SEQUENCES + 1,
{
    lemma_fold_sorted(settings, rs, UPPER_BOUND_SEQUENCES as int);
}

/// The front of the first `n` sequences is sorted, and not empty from the second on.
proof fn lemma_fold_sorted(settings: Settings, rs: ReducedState, n: int)
    requires
        rs.is_valid(),
        0 <= n <= UPPER_BOUND_SEQUENCES,
    ensures
        is_sorted_front(upper_bound_fold(settings, rs, n)),
        n >= 2 ==> upper_bound_fold(settings, rs, n).len() > 0,
    decreases rs.cp, n,
{
    if n > 0 {
        lemma_fold_sorted(settings, rs, n - 1);
        lemma_step(settings, rs, n - 1);
        let acc = upper_bound_fold(settings, rs, n - 1);
        if n == 2 {
            lemma_basic_synthesis_step(settings, rs);
        }
        match step_state(settings, rs, n - 1) {
            State::InProgress(ns) => {
                let progress = sat_diff(INF_PROGRESS_VALUE, ns.missing_progress.inner_value);
                let quality = sat_diff(INF_QUALITY_VALUE, ns.missing_quality.inner_value);
                let child = ReducedState::from_state_spec(ns);
                if child.cp > 0 {
                    lemma_front_sorted(settings, child);
                    let sub = imported(upper_bound_front(settings, child));
                    lemma_shift_sorted(sub, progress as int, quality as int);
                    lemma_merge_sorted(acc, shift_front(sub, progress as int, quality as int));
                } else if progress != 0 {
                    let sub = seq![zero_value()];
                    lemma_shift_sorted(sub, progress as int, quality as int);
                    lemma_merge_sorted(acc, shift_front(sub, progress as int, quality as int));
                }
            },
            _ => {},
        }
    }
}

/// The reduced state that a craft in progress is searched from: its durability (in steps
/// of 5) and the steps of Manipulation it has left are counted in CP.
pub open spec fn top_reduced(state: InProgress) -> ReducedState {
    ReducedState {
        cp: (state.cp + state.effects.manipulation * MANIPULATION_COST + (state.durability / 5)
            * DURABILITY_COST) as CP,
        effects: ReducedEffects::from_effects_spec(state.effects),
    }
}

/// The CP of `top_reduced` fits in a `CP`.
pub open spec fn top_reduced_fits(state: InProgress) -> bool {
    state.cp + state.effects.manipulation * MANIPULATION_COST + (state.durability / 5)
        * DURABILITY_COST <= i16::MAX
}

/// The index of the last value of `front` with at least `missing` progress, -1 if none.
pub open spec fn last_reaching(front: Seq<ParetoValue>, missing: int) -> int
    decreases front.len(),
{
    if front.len() == 0 {
        -1
    } else if front.last().p() >= missing {
        front.len() - 1
    } else {
        last_reaching(front.drop_last(), missing)
    }
}

/// In a sorted front, a value that reaches `missing` followed by one that does not (or by
/// nothing) is the last that reaches it.
proof fn lemma_last_reaching(front: Seq<ParetoValue>, missing: int, k: int)
    requires
        is_sorted_front(front),
        0 <= k < front.len(),
        front[k].p() >= missing,
        k + 1 == front.len() || front[k + 1].p() < missing,
    ensures
        last_reaching(front, missing) == k,
    decreases front.len(),
{
    if k + 1 < front.len() {
        let prev = front.drop_last();
        assert(front.last().p() <= front[k + 1].p());
        assert(prev[k] == front[k]);
        if k + 1 < prev.len() {
            assert(prev[k + 1] == front[k + 1]);
        }
        lemma_last_reaching(prev, missing, k);
    }
}

/// The quality bound for `state`: none when the front of its relaxed search does not reach
/// the missing progress; else the quality of the last value that reaches it, added
/// (saturating) to the quality the craft already has, and capped at the recipe's quality.
pub open spec fn quality_bound_spec(settings: Settings, state: InProgress) -> u32 {
    let front = upper_bound_front(settings, top_reduced(state));
    let missing = state.missing_progress.inner_value as int;
    let current = sat_diff(settings.max_quality.inner_value, state.missing_quality.inner_value);
    if front.len() == 0 || front[0].p() < missing {
        0
    } else {
        let q = front[last_reaching(front, missing)].q() + current;
        let capped = if q <= u32::MAX {
            q
        } else {
            u32::MAX as int
        };
        if settings.max_quality.inner_value < capped {
            settings.max_quality.inner_value
        } else {
            capped as u32
        }
    }
}

/// The bound never exceeds the recipe's quality, and, unless it is 0 because the relaxed
/// search cannot reach the missing progress, it is at least the quality the craft has.
pub proof fn lemma_bound_range(settings: Settings, state: InProgress)
    ensures
        quality_bound_spec(settings, state) <= settings.max_quality.inner_value,
        quality_bound_spec(settings, state) == 0 || quality_bound_spec(settings, state) >= sat_diff(
            settings.max_quality.inner_value,
            state.missing_quality.inner_value,
        ),
{
}

/// The front of the first `n` sequences of the search rises in quality.
proof fn lemma_fold_rising(settings: Settings, rs: ReducedState, n: int)
    requires
        rs.is_valid(),
        0 <= n <= UPPER_BOUND_SEQUENCES,
    ensures
        is_rising_front(upper_bound_fold(settings, rs, n)),
    decreases n,
{
    if n > 0 {
        lemma_fold_rising(settings, rs, n - 1);
        lemma_fold_step(settings, rs, n - 1);
        let acc = upper_bound_fold(settings, rs, n - 1);
        match step_state(settings, rs, n - 1) {
            State::InProgress(ns) => {
                let progress = sat_diff(INF_PROGRESS_VALUE, ns.missing_progress.inner_value);
                let quality = sat_diff(INF_QUALITY_VALUE, ns.missing_quality.inner_value);
                let child = ReducedState::from_state_spec(ns);
                if child.cp > 0 {
                    lemma_keep_improving_rising(merge_walk(
                        acc,
                        shift_front(
                            imported(upper_bound_front(settings, child)),
                            progress as int,
                            quality as int,
                        ),
                    ));
                } else if progress != 0 {
                    lemma_keep_improving_rising(merge_walk(
                        acc,
                        shift_front(seq![zero_value()], progress as int, quality as int),
                    ));
                }
            },
            _ => {},
        }
    }
}

/// The last value reaching a smaller progress stands no earlier, and `last_reaching` names
/// a value that reaches the progress, or -1.
proof fn lemma_last_reaching_monotone(front: Seq<ParetoValue>, m1: int, m2: int)
    requires
        m1 <= m2,
    ensures
        -1 <= last_reaching(front, m2) <= last_reaching(front, m1) < front.len(),
        last_reaching(front, m1) >= 0 ==> front[last_reaching(front, m1)].p() >= m1,
        (exists|k: int| 0 <= k < front.len() && front[k].p() >= m1) ==> last_reaching(front, m1) >= 0,
    decreases front.len(),
{
    if front.len() > 0 {
        let prev = front.drop_last();
        lemma_last_reaching_monotone(prev, m1, m2);
        let r1 = last_reaching(prev, m1);
        if r1 >= 0 {
            assert(prev[r1] == front[r1]);
        }
        if exists|k: int| 0 <= k < front.len() && front[k].p() >= m1 {
            let k = choose|k: int| 0 <= k < front.len() && front[k].p() >= m1;
            if k < prev.len() {
                assert(prev[k] == front[k]);
            }
        }
    }
}

/// The bound never falls when less progress or less quality is missing, all else equal.
pub proof fn lemma_bound_monotone(
    settings: Settings,
    state: InProgress,
    missing_progress: Progress,
    missing_quality: Quality,
)
    requires
        top_reduced(state).is_valid(),
        missing_progress.inner_value <= state.missing_progress.inner_value,
        missing_quality.inner_value <= state.missing_quality.inner_value,
    ensures
        quality_bound_spec(settings, state) <= quality_bound_spec(
            settings,
            InProgress { missing_progress, missing_quality, ..state },
        ),
{
    let other = InProgress { missing_progress, missing_quality, ..state };
    let rs = top_reduced(state);
    assert(top_reduced(other) == rs);
    let front = upper_bound_front(settings, rs);
    lemma_front_sorted(settings, rs);
    lemma_fold_rising(settings, rs, UPPER_BOUND_SEQUENCES as int);
    let m1 = missing_progress.inner_value as int;
    let m2 = state.missing_progress.inner_value as int;
    lemma_last_reaching_monotone(front, m1, m2);
    if front.len() > 0 && front[0].p() >= m2 {
        lemma_last_reaching_monotone(front, m2, m2);
        let k1 = last_reaching(front, m1);
        let k2 = last_reaching(front, m2);
        assert(k2 >= 0);
        assert(k1 >= 0);
        assert(front[k2].q() <= front[k1].q());
    }
}

/// `x`, or `u32::MAX` when it does not fit.
pub open spec fn sat_u32(x: int) -> int {
    if x <= u32::MAX {
        x
    } else {
        u32::MAX as int
    }
}

/// The progress and quality that the search steps `steps` (indices of its sequences) make
/// from `rs`, one after the other, summed (saturating) as the search sums them: every step
/// leaves the craft in progress, every step but the last leaves CP, and the last leaves CP
/// or makes progress. `None` when the steps do not go through so.
pub open spec fn relaxed_gain(settings: Settings, rs: ReducedState, steps: Seq<int>) -> Option<
    (int, int),
>
    decreases steps.len(),
{
    if steps.len() == 0 || !(0 <= steps[0] < UPPER_BOUND_SEQUENCES) {
        None
    } else {
        match step_state(settings, rs, steps[0]) {
            State::InProgress(ns) => {
                let progress = sat_diff(INF_PROGRESS_VALUE, ns.missing_progress.inner_value) as int;
                let quality = sat_diff(INF_QUALITY_VALUE, ns.missing_quality.inner_value) as int;
                let child = ReducedState::from_state_spec(ns);
                if steps.len() == 1 {
                    if child.cp > 0 || progress != 0 {
                        Some((progress, quality))
                    } else {
                        None
                    }
                } else if child.cp > 0 {
                    match relaxed_gain(settings, child, steps.drop_first()) {
                        Some(g) => Some((sat_u32(g.0 + progress), sat_u32(g.1 + quality))),
                        None => None,
                    }
                } else {
                    None
                }
            },
            _ => None,
        }
    }
}

/// Some value of `front` reaches `progress` and `quality`.
pub open spec fn front_reaches(front: Seq<ParetoValue>, progress: int, quality: int) -> bool {
    exists|j: int| 0 <= j < front.len() && #[trigger] front[j].p() >= progress && front[j].q() >= quality
}

/// Merging keeps what either front reached.
proof fn lemma_merge_reaches(a: Seq<ParetoValue>, b: Seq<ParetoValue>, p: int, q: int)
    requires
        is_sorted_front(a),
        is_sorted_front(b),
        front_reaches(a, p, q) || front_reaches(b, p, q),
    ensures
        front_reaches(merge_fronts(a, b), p, q),
{
    lemma_merge_is_front(a, b);
    let m = merge_fronts(a, b);
    if front_reaches(a, p, q) {
        let j = choose|j: int| 0 <= j < a.len() && #[trigger] a[j].p() >= p && a[j].q() >= q;
        let k = choose|k: int| 0 <= k < m.len() && covers(#[trigger] m[k], a[j]);
        assert(m[k].p() >= p);
    } else {
        let j = choose|j: int| 0 <= j < b.len() && #[trigger] b[j].p() >= p && b[j].q() >= q;
        let k = choose|k: int| 0 <= k < m.len() && covers(#[trigger] m[k], b[j]);
        assert(m[k].p() >= p);
    }
}

/// Folding in more sequences keeps what the fold reached.
proof fn lemma_fold_keeps(settings: Settings, rs: ReducedState, n: int, m: int, p: int, q: int)
    requires
        rs.is_valid(),
        0 <= n <= m <= UPPER_BOUND_SEQUENCES,
        front_reaches(upper_bound_fold(settings, rs, n), p, q),
    ensures
        front_reaches(upper_bound_fold(settings, rs, m), p, q),
    decreases m - n,
{
    if n < m {
        lemma_fold_step(settings, rs, n);
        lemma_fold_sorted(settings, rs, n);
        let acc = upper_bound_fold(settings, rs, n);
        match step_state(settings, rs, n) {
            State::InProgress(ns) => {
                let progress = sat_diff(INF_PROGRESS_VALUE, ns.missing_progress.inner_value);
                let quality = sat_diff(INF_QUALITY_VALUE, ns.missing_quality.inner_value);
                let child = ReducedState::from_state_spec(ns);
                lemma_step(settings, rs, n);
                if child.cp > 0 {
                    lemma_front_sorted(settings, child);
                    let sub = imported(upper_bound_front(settings, child));
                    lemma_shift_sorted(sub, progress as int, quality as int);
                    lemma_merge_reaches(acc, shift_front(sub, progress as int, quality as int), p, q);
                } else if progress != 0 {
                    let sub = seq![zero_value()];
                    lemma_shift_sorted(sub, progress as int, quality as int);
                    lemma_merge_reaches(acc, shift_front(sub, progress as int, quality as int), p, q);
                }
            },
            _ => {},
        }
        lemma_fold_keeps(settings, rs, n + 1, m, p, q);
    }
}

/// The front of the relaxed search from `rs` reaches the progress and quality of every run
/// of its steps.
pub proof fn lemma_front_covers_runs(settings: Settings, rs: ReducedState, steps: Seq<int>)
    requires
        rs.is_valid(),
        relaxed_gain(settings, rs, steps) is Some,
    ensures
        relaxed_gain(settings, rs, steps) matches Some(g) && front_reaches(
            upper_bound_front(settings, rs),
            g.0,
            g.1,
        ),
    decreases rs.cp,
{
    let i = steps[0];
    let g = relaxed_gain(settings, rs, steps)->0;
    lemma_step(settings, rs, i);
    lemma_fold_step(settings, rs, i);
    lemma_fold_sorted(settings, rs, i);
    let acc = upper_bound_fold(settings, rs, i);
    let ns = step_state(settings, rs, i)->InProgress_0;
    let progress = sat_diff(INF_PROGRESS_VALUE, ns.missing_progress.inner_value);
    let quality = sat_diff(INF_QUALITY_VALUE, ns.missing_quality.inner_value);
    let child = ReducedState::from_state_spec(ns);
    if child.cp > 0 {
        lemma_front_sorted(settings, child);
        let front = upper_bound_front(settings, child);
        let sub = imported(front);
        assert(sub == front);
        let shifted = shift_front(sub, progress as int, quality as int);
        lemma_shift_sorted(sub, progress as int, quality as int);
        if steps.len() == 1 {
            assert(shifted[0].p() >= progress && shifted[0].q() >= quality);
            assert(front_reaches(shifted, g.0, g.1));
        } else {
            lemma_front_covers_runs(settings, child, steps.drop_first());
            let h = relaxed_gain(settings, child, steps.drop_first())->0;
            let j = choose|j: int| 0 <= j < front.len() && #[trigger] front[j].p() >= h.0 && front[j].q() >= h.1;
            assert(shifted[j].p() >= g.0 && shifted[j].q() >= g.1);
            assert(front_reaches(shifted, g.0, g.1));
        }
        lemma_merge_reaches(acc, shifted, g.0, g.1);
    } else {
        let sub = seq![zero_value()];
        let shifted = shift_front(sub, progress as int, quality as int);
        lemma_shift_sorted(sub, progress as int, quality as int);
        assert(shifted[0].p() >= g.0 && shifted[0].q() >= g.1);
        assert(front_reaches(shifted, g.0, g.1));
        lemma_merge_reaches(acc, shifted, g.0, g.1);
    }
    lemma_fold_keeps(settings, rs, i + 1, UPPER_BOUND_SEQUENCES as int, g.0, g.1);
}

/// The last value that reaches a progress stands no earlier than any value that reaches it.
proof fn lemma_last_reaching_after(front: Seq<ParetoValue>, missing: int, j: int)
    requires
        0 <= j < front.len(),
        front[j].p() >= missing,
    ensures
        j <= last_reaching(front, missing) < front.len(),
        front[last_reaching(front, missing)].p() >= missing,
    decreases front.len(),
{
    if front.last().p() < missing {
        let prev = front.drop_last();
        assert(j < prev.len());
        assert(prev[j] == front[j]);
        lemma_last_reaching_after(prev, missing, j);
        assert(prev[last_reaching(prev, missing)] == front[last_reaching(prev, missing)]);
    }
}

/// The bound covers the relaxed search: for every run of its steps from the reduced state of
/// `state` that makes the missing progress, the bound is at least the quality the craft has
/// plus the quality the run makes, or the recipe's quality when that is less.
pub proof fn lemma_bound_covers_relaxed_runs(settings: Settings, state: InProgress, steps: Seq<int>)
    requires
        top_reduced(state).is_valid(),
        relaxed_gain(settings, top_reduced(state), steps) matches Some(g) && g.0
            >= state.missing_progress.inner_value,
    ensures
        relaxed_gain(settings, top_reduced(state), steps) matches Some(g) && quality_bound_spec(
            settings,
            state,
        ) >= if g.1 + sat_diff(settings.max_quality.inner_value, state.missing_quality.inner_value)
            <= settings.max_quality.inner_value {
            g.1 + sat_diff(settings.max_quality.inner_value, state.missing_quality.inner_value)
        } else {
            settings.max_quality.inner_value as int
        },
{
    let rs = top_reduced(state);
    let g = relaxed_gain(settings, rs, steps)->0;
    let front = upper_bound_front(settings, rs);
    let missing = state.missing_progress.inner_value as int;
    lemma_front_covers_runs(settings, rs, steps);
    lemma_front_sorted(settings, rs);
    lemma_fold_rising(settings, rs, UPPER_BOUND_SEQUENCES as int);
    let j = choose|j: int| 0 <= j < front.len() && #[trigger] front[j].p() >= g.0 && front[j].q() >= g.1;
    assert(front[0].p() >= front[j].p());
    lemma_last_reaching_after(front, missing, j);
    let k = last_reaching(front, missing);
    assert(front[k].q() >= front[j].q());
}

/// Bounds the quality a craft can still reach, from a relaxed search in which durability and
/// Manipulation are paid for in CP and the fronts of reduced states are memoized.
pub struct UpperBoundSolver {
    settings: Settings,
    solved_states: FxHashMap<u64, Vec<ParetoValue>>,
    pareto_front_builder: ParetoFrontBuilder,
    sequences: Vec<&'static [Action]>,
}

impl UpperBoundSolver {
    /// The settings the solver works with.
    pub closed spec fn settings_spec(&self) -> Settings {
        self.settings
    }

    /// The builder is well formed, and every front in the memo is the front of its state.
    pub closed spec fn wf(&self) -> bool {
        &&& self.pareto_front_builder.wf()
        &&& self.sequences@.len() == UPPER_BOUND_SEQUENCES
        &&& forall|j: int|
            0 <= j < UPPER_BOUND_SEQUENCES ==> (#[trigger] self.sequences@[j])@
                == upper_bound_sequence(j)
        &&& forall|rs: ReducedState|
            #[trigger] self.solved_states@.contains_key(reduced_key(rs)) && rs.is_valid()
                ==> self.solved_states@[reduced_key(rs)]@ == upper_bound_front(self.settings, rs)
    }

    pub fn new(settings: Settings) -> (r: Self)
        ensures
            r.wf(),
            r.settings_spec() == settings,
    {
        UpperBoundSolver {
            settings,
            solved_states: FxHashMap::default(),
            pareto_front_builder: ParetoFrontBuilder::new(),
            sequences: upper_bound_sequences(),
        }
    }

    /// An upper bound on the quality that the craft can reach from `state` (see
    /// `quality_bound_spec`): at least the quality of every run of the relaxed search's
    /// steps that makes the missing progress (`lemma_bound_covers_relaxed_runs`).
    pub fn quality_upper_bound(&mut self, state: InProgress) -> (r: Quality)
        requires
            old(self).wf(),
            state.cp >= 0,
            state.durability > 0,
            state.effects.inner_quiet <= 10,
            top_reduced_fits(state),
        ensures
            final(self).wf(),
            final(self).settings_spec() == old(self).settings_spec(),
            r.inner_value == quality_bound_spec(old(self).settings_spec(), state),
    {
        let current_quality = self.settings.max_quality.saturating_sub(state.missing_quality);
        let reduced_state = ReducedState {
            cp: state.cp + state.effects.manipulation as CP * MANIPULATION_COST + (state.durability
                / 5) as CP * DURABILITY_COST,
            effects: ReducedEffects::from_effects(&state.effects),
        };
        assert(reduced_state == top_reduced(state));
        let key = reduced_key_exec(&reduced_state);
        if fx_get(&self.solved_states, key).is_none() {
            self.solve_state(reduced_state);
            self.pareto_front_builder.clear();
        }
        let ghost settings = self.settings;
        let pareto_front = match fx_get(&self.solved_states, key) {
            Some(front) => front,
            None => {
                return Quality::new(0);
            },
        };
        proof {
            lemma_front_sorted(settings, reduced_state);
        }
        let missing = state.missing_progress;
        if pareto_front.len() == 0 {
            return Quality::new(0);
        }
        if pareto_front[0].progress.inner_value < missing.inner_value {
            return Quality::new(0);
        }
        let mut lo: usize = 0;
        let mut hi: usize = pareto_front.len();
        while lo + 1 != hi
            invariant
                reduced_state.is_valid(),
                pareto_front@ == upper_bound_front(settings, reduced_state),
                is_sorted_front(pareto_front@),
                0 <= lo < hi <= pareto_front@.len(),
                pareto_front@[lo as int].p() >= missing.inner_value,
                hi == pareto_front@.len() || pareto_front@[hi as int].p() < missing.inner_value,
            decreases hi - lo,
        {
            let m = lo + (hi - lo) / 2;
            if pareto_front[m].progress.inner_value < missing.inner_value {
                hi = m;
            } else {
                lo = m;
            }
        }
        proof {
            lemma_last_reaching(pareto_front@, missing.inner_value as int, lo as int);
        }
        let quality = pareto_front[lo].quality.saturating_add(current_quality);
        if self.settings.max_quality.inner_value < quality.inner_value {
            self.settings.max_quality
        } else {
            quality
        }
    }

    /// Pushes the front of `state` on the builder, and keeps it in the memo.
    fn solve_state(&mut self, state: ReducedState)
        requires
            old(self).wf(),
            state.is_valid(),
        ensures
            final(self).wf(),
            final(self).settings == old(self).settings,
            final(self).pareto_front_builder.view_fronts() == old(
                self,
            ).pareto_front_builder.view_fronts().push(upper_bound_front(old(self).settings, state)),
            final(self).solved_states@.contains_key(reduced_key(state)),
        decreases state.cp,
    {
        let ghost settings = self.settings;
        let ghost old_fronts = self.pareto_front_builder.view_fronts();
        self.pareto_front_builder.start_new_front();
        let mut i: usize = 0;
        while i < self.sequences.len()
            invariant
                self.wf(),
                self.settings == settings,
                state.is_valid(),
                0 <= i <= UPPER_BOUND_SEQUENCES,
                self.pareto_front_builder.view_fronts() == old_fronts.push(
                    upper_bound_fold(settings, state, i as int),
                ),
            decreases UPPER_BOUND_SEQUENCES - i,
        {
            proof {
                lemma_step(settings, state, i as int);
                lemma_fold_step(settings, state, i as int);
            }
            let ghost acc = upper_bound_fold(settings, state, i as int);
            let sequence: &'static [Action] = self.sequences[i];
            let new_state = State::InProgress(state.to_state()).use_actions(
                sequence,
                Condition::Normal,
                &self.settings,
            );
            match new_state {
                State::InProgress(ns) => {
                    let action_progress = Progress::new(100_000).saturating_sub(ns.missing_progress);
                    let action_quality = Quality::new(100_000).saturating_sub(ns.missing_quality);
                    let child = ReducedState::from_state(&ns);
                    if child.cp > 0 {
                        let child_key = reduced_key_exec(&child);
                        match fx_get(&self.solved_states, child_key) {
                            Some(front) => {
                                self.pareto_front_builder.import_front(front.as_slice());
                            },
                            None => {
                                self.solve_state(child);
                            },
                        }
                        proof {
                            lemma_front_sorted(settings, child);
                            assert(self.pareto_front_builder.view_fronts() == old_fronts.push(acc).push(
                                imported(upper_bound_front(settings, child)),
                            ));
                        }
                        let ghost sub = imported(upper_bound_front(settings, child));
                        self.pareto_front_builder.shift_last_front_value(action_progress, action_quality);
                        let ghost shifted = shift_front(
                            sub,
                            action_progress.inner_value as int,
                            action_quality.inner_value as int,
                        );
                        assert(self.pareto_front_builder.view_fronts() =~= old_fronts.push(acc).push(shifted));
                        self.pareto_front_builder.merge_last_two_fronts();
                        assert(old_fronts.push(acc).push(shifted).take(old_fronts.len() as int) =~= old_fronts);
                        assert(self.pareto_front_builder.view_fronts() =~= old_fronts.push(
                            merge_fronts(acc, shifted),
                        ));
                    } else if action_progress.inner_value != 0 {
                        let zero = vec![ParetoValue::new(Progress::new(0), Quality::new(0))];
                        assert(zero@ =~= seq![zero_value()]);
                        self.pareto_front_builder.import_front(zero.as_slice());
                        self.pareto_front_builder.shift_last_front_value(action_progress, action_quality);
                        let ghost shifted = shift_front(
                            seq![zero_value()],
                            action_progress.inner_value as int,
                            action_quality.inner_value as int,
                        );
                        assert(self.pareto_front_builder.view_fronts() =~= old_fronts.push(acc).push(shifted));
                        self.pareto_front_builder.merge_last_two_fronts();
                        assert(old_fronts.push(acc).push(shifted).take(old_fronts.len() as int) =~= old_fronts);
                        assert(self.pareto_front_builder.view_fronts() =~= old_fronts.push(
                            merge_fronts(acc, shifted),
                        ));
                    }
                },
                _ => {},
            }
            proof {
                assert(self.pareto_front_builder.view_fronts() =~= old_fronts.push(
                    upper_bound_fold(settings, state, i + 1),
                ));
            }
            i = i + 1;
        }
        let front = self.pareto_front_builder.finalize();
        let key = reduced_key_exec(&state);
        let ghost old_memo = self.solved_states@;
        fx_insert(&mut self.solved_states, key, front);
        proof {
            assert forall|rs: ReducedState|
                #[trigger] self.solved_states@.contains_key(reduced_key(rs)) && rs.is_valid()
                    implies self.solved_states@[reduced_key(rs)]@ == upper_bound_front(settings, rs) by {
                if reduced_key(rs) == key {
                    lemma_reduced_key_injective(rs, state);
                } else {
                    assert(old_memo.contains_key(reduced_key(rs)));
                }
            }
        }
    }
}

} // verus!
