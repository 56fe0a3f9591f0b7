use rustc_hash::FxHashMap;
use vstd::prelude::*;

use crate::game::actions::Action;
use crate::game::conditions::Condition;
use crate::game::effects::Effects;
use crate::game::settings::Settings;
use crate::game::state::{InProgress, State};
use crate::game::units::{Durability, Progress, Quality, CP};
use crate::solvers::memo::{fx_get, fx_insert};
use crate::solvers::upper_bound_solver::constants::{
    DURABILITY_COST, GREAT_STRIDES_COST, VENERATION_COST, WASTE_NOT_COST,
};
use crate::solvers::upper_bound_solver::relaxed::{
    is_relaxed, is_restoring, lemma_actions_cp_shift, lemma_relaxed_run, raise_cp,
};
use crate::solvers::upper_bound_solver::upper_bound_solver::sat_diff;

verus! {

/// The durability of the states searched.
pub const MAX_DURABILITY: Durability = 100;

/// The progress missing in the states searched (100,000 potency).
pub const MAX_PROGRESS_VALUE: u32 = 2_000_000;

/// The quality missing in the states searched (100,000 potency).
pub const MAX_QUALITY_VALUE: u32 = 80_000_000;

/// The number of steps the search tries from each state: 18 combinations of effects bought
/// with CP (Great Strides or not, 0 to 2 steps of Innovation, 0 to 2 of Waste Not) times 5
/// quality sequences.
pub const QUALITY_SEARCH_ITEMS: usize = 90;

/// The quality sequences of the search.
pub open spec fn quality_sequence(i: int) -> Seq<Action> {
    if i == 0 {
        seq![Action::PrudentTouch]
    } else if i == 1 {
        seq![Action::BasicTouch, Action::StandardTouch, Action::AdvancedTouch]
    } else if i == 2 {
        seq![Action::PreparatoryTouch]
    } else if i == 3 {
        seq![Action::Observe, Action::FocusedTouch]
    } else {
        seq![Action::ByregotsBlessing]
    }
}

fn quality_sequence_exec(i: usize) -> (r: &'static [Action])
    requires
        i < 5,
    ensures
        r@ == quality_sequence(i as int),
{
    let r: &'static [Action] = if i == 0 {
        &[Action::PrudentTouch]
    } else if i == 1 {
        &[Action::BasicTouch, Action::StandardTouch, Action::AdvancedTouch]
    } else if i == 2 {
        &[Action::PreparatoryTouch]
    } else if i == 3 {
        &[Action::Observe, Action::FocusedTouch]
    } else {
        &[Action::ByregotsBlessing]
    };
    assert(r@ =~= quality_sequence(i as int));
    r
}

/// What the quality search remembers of a state: CP (durability counted in CP) and inner quiet.
#[derive(Debug, Clone, Copy, PartialEq, Eq, Structural, Hash)]
pub struct ReducedState {
    pub cp: CP,
    pub inner_quiet: u8,
}

impl ReducedState {
    /// The durability used below 100 is charged in CP, 12 for every 5.
    pub open spec fn from_state_spec(state: InProgress) -> ReducedState {
        ReducedState {
            cp: (state.cp - (DURABILITY_COST * (MAX_DURABILITY - state.durability)) / 5) as CP,
            inner_quiet: state.effects.inner_quiet,
        }
    }

    pub fn from_state(state: &InProgress) -> (r: ReducedState)
        requires
            is_relaxed(*state),
        ensures
            r == Self::from_state_spec(*state),
    {
        let durability_cost = DURABILITY_COST * (MAX_DURABILITY - state.durability) as CP / 5;
        ReducedState { cp: state.cp - durability_cost, inner_quiet: state.effects.inner_quiet }
    }

    /// The state searched from: full durability, no effect but inner quiet, and far more
    /// progress and quality missing than any craft has.
    pub open spec fn to_state_spec(self) -> InProgress {
        InProgress {
            cp: self.cp,
            durability: MAX_DURABILITY,
            missing_progress: Progress { inner_value: MAX_PROGRESS_VALUE },
            missing_quality: Quality { inner_value: MAX_QUALITY_VALUE },
            effects: Effects { inner_quiet: self.inner_quiet, ..Effects::none() },
            combo: None,
        }
    }

    pub fn to_state(self) -> (r: InProgress)
        ensures
            r == self.to_state_spec(),
    {
        InProgress {
            cp: self.cp,
            durability: MAX_DURABILITY,
            missing_progress: Progress::new(100_000),
            missing_quality: Quality::new(100_000),
            effects: Effects { inner_quiet: self.inner_quiet, ..Default::default() },
            combo: None,
        }
    }
}

/// The effects bought for search item `k`: Great Strides or not, steps of Innovation and of
/// Waste Not, in the order the search tries them.
pub open spec fn item_effects(k: int) -> (bool, int, int) {
    let c = k / 5;
    (c / 9 == 1, (c / 3) % 3, c % 3)
}

/// What the effects of item `k` cost in CP.
pub open spec fn item_cost(k: int) -> int {
    let (great_strides, innovation, waste_not) = item_effects(k);
    innovation * VENERATION_COST + waste_not * WASTE_NOT_COST + if great_strides {
        GREAT_STRIDES_COST as int
    } else {
        0
    }
}

/// The state that item `k` starts its sequence from.
pub open spec fn item_start(rs: ReducedState, k: int) -> InProgress {
    let (great_strides, innovation, waste_not) = item_effects(k);
    let s = rs.to_state_spec();
    InProgress {
        cp: (rs.cp - item_cost(k)) as CP,
        effects: Effects {
            great_strides: if great_strides {
                5
            } else {
                0
            },
            innovation: innovation as u8,
            waste_not: waste_not as u8,
            ..s.effects
        },
        ..s
    }
}

/// What item `k` of the search leaves from `rs`.
pub open spec fn item_state(settings: Settings, rs: ReducedState, k: int) -> State {
    State::InProgress(item_start(rs, k)).use_actions_spec(
        quality_sequence(k % 5),
        Condition::Normal,
        settings,
    )
}

/// `a + b`, or `u32::MAX` when that does not fit.
pub open spec fn sat_sum(a: u32, b: u32) -> u32 {
    if a + b <= u32::MAX {
        (a + b) as u32
    } else {
        u32::MAX
    }
}

/// A measure that every step of the search lowers.
pub open spec fn cp_measure(cp: int) -> nat {
    if cp < 0 {
        0
    } else {
        (cp + 1) as nat
    }
}

/// Item `k` is safe from a reduced state with CP for its effects, and what it leaves in
/// progress has less CP once durability is counted.
pub proof fn lemma_item_step(settings: Settings, rs: ReducedState, k: int)
    requires
        rs.inner_quiet <= 10,
        0 <= k < QUALITY_SEARCH_ITEMS,
        item_cost(k) <= rs.cp,
    ensures
        State::InProgress(item_start(rs, k)).use_actions_safe(
            quality_sequence(k % 5),
            Condition::Normal,
            settings,
        ),
        item_state(settings, rs, k) matches State::InProgress(n) ==> {
            &&& is_relaxed(n)
            &&& n.cp <= rs.cp
            &&& cp_measure(ReducedState::from_state_spec(n).cp as int) < cp_measure(rs.cp as int)
            &&& ReducedState::from_state_spec(n).inner_quiet <= 10
        },
{
    let seq = quality_sequence(k % 5);
    let start = item_start(rs, k);
    assert(is_relaxed(start));
    assert(forall|j: int| 0 <= j < seq.len() ==> !is_restoring(#[trigger] seq[j]));
    lemma_relaxed_run(start, seq, settings);
    match item_state(settings, rs, k) {
        State::InProgress(n) => {
            assert(seq.len() > 0 && seq[0].cp_cost_spec(Condition::Normal) >= 1);
            lemma_first_costs(start, seq, settings);
        },
        _ => {},
    }
}

/// A run whose first action costs CP and that restores nothing leaves less CP.
pub proof fn lemma_first_costs(s: InProgress, actions: Seq<Action>, settings: Settings)
    requires
        is_relaxed(s),
        actions.len() > 0,
        actions[0].cp_cost_spec(Condition::Normal) >= 1,
        forall|j: int| 0 <= j < actions.len() ==> !is_restoring(#[trigger] actions[j]),
    ensures
        State::InProgress(s).use_actions_spec(actions, Condition::Normal, settings) matches State::InProgress(n) ==> n.cp < s.cp,
{
    let a = actions[0];
    assert(!is_restoring(actions[0]));
    let first = s.use_action_spec(a, Condition::Normal, settings);
    assert(State::InProgress(s).use_actions_spec(actions, Condition::Normal, settings)
        == first.use_actions_spec(actions.drop_first(), Condition::Normal, settings));
    match first {
        State::InProgress(n1) => {
            crate::solvers::upper_bound_solver::relaxed::lemma_relaxed_step(s, a, settings);
            assert(n1.cp == s.cp - a.cp_cost_spec(Condition::Normal));
            assert forall|j: int| 0 <= j < actions.drop_first().len() implies !is_restoring(
                #[trigger] actions.drop_first()[j],
            ) by {
                assert(actions.drop_first()[j] == actions[j + 1]);
            }
            lemma_relaxed_run(n1, actions.drop_first(), settings);
        },
        _ => {
            if actions.drop_first().len() > 0 {
                assert(first.use_actions_spec(actions.drop_first(), Condition::Normal, settings)
                    == State::Invalid);
            } else {
                assert(first.use_actions_spec(actions.drop_first(), Condition::Normal, settings)
                    == first);
            }
        },
    }
}

/// The most quality that the quality sequences reach from `rs`: the best, over every
/// combination of effects that the CP pays for and every sequence that leaves the craft in
/// progress, of the quality the sequence adds plus the bound of the state it leaves.
pub open spec fn quality_bound(settings: Settings, rs: ReducedState) -> u32
    decreases cp_measure(rs.cp as int), QUALITY_SEARCH_ITEMS + 1,
    when rs.inner_quiet <= 10
{
    if rs.cp < 0 {
        0
    } else {
        quality_fold(settings, rs, QUALITY_SEARCH_ITEMS as int)
    }
}

/// The best of the first `n` items of the search from `rs` (0 when there is none).
pub open spec fn quality_fold(settings: Settings, rs: ReducedState, n: int) -> u32
    decreases cp_measure(rs.cp as int), n,
    when rs.inner_quiet <= 10 && rs.cp >= 0 && n <= QUALITY_SEARCH_ITEMS
{
    if n <= 0 {
        0
    } else {
        let best = quality_fold(settings, rs, n - 1);
        let k = n - 1;
        if item_cost(k) > rs.cp {
            best
        } else {
            proof {
                lemma_item_step(settings, rs, k);
            }
            match item_state(settings, rs, k) {
                State::InProgress(ip) => {
                    let total = sat_sum(
                        sat_diff(MAX_QUALITY_VALUE, ip.missing_quality.inner_value),
                        quality_bound(settings, ReducedState::from_state_spec(ip)),
                    );
                    if best < total {
                        total
                    } else {
                        best
                    }
                },
                _ => best,
            }
        }
    }
}

/// The key of a reduced state in the memo.
pub open spec fn quality_key(rs: ReducedState) -> u64 {
    (rs.cp as u16 as u64) | ((rs.inner_quiet as u64) << 16u64)
}

fn quality_key_exec(rs: &ReducedState) -> (r: u64)
    ensures
        r == quality_key(*rs),
{
    (rs.cp as u16 as u64) | ((rs.inner_quiet as u64) << 16u64)
}

proof fn lemma_quality_key_injective(a: ReducedState, b: ReducedState)
    requires
        quality_key(a) == quality_key(b),
    ensures
        a == b,
{
    let (c1, i1, c2, i2) = (a.cp, a.inner_quiet, b.cp, b.inner_quiet);
    assert(c1 == c2 && i1 == i2) by (bit_vector)
        requires
            (c1 as u16 as u64) | ((i1 as u64) << 16u64) == (c2 as u16 as u64) | ((i2 as u64) << 16u64),
    ;
}

/// Bounds the quality that quality actions can still add, by CP and inner quiet, memoized.
pub struct QualityBoundSolver {
    settings: Settings,
    quality_bound: FxHashMap<u64, Quality>,
}

impl QualityBoundSolver {
    pub closed spec fn settings_spec(&self) -> Settings {
        self.settings
    }

    /// Every bound in the memo is the bound of its state.
    pub closed spec fn wf(&self) -> bool {
        forall|rs: ReducedState|
            #[trigger] self.quality_bound@.contains_key(quality_key(rs)) && rs.inner_quiet <= 10
                ==> self.quality_bound@[quality_key(rs)].inner_value == quality_bound(self.settings, rs)
    }

    pub fn new(settings: Settings) -> (r: Self)
        ensures
            r.wf(),
            r.settings_spec() == settings,
    {
        QualityBoundSolver { settings, quality_bound: FxHashMap::default() }
    }

    /// The most quality that quality actions add with `cp` CP from `inner_quiet` stacks (see
    /// `quality_bound`).
    pub fn quality_upper_bound(&mut self, cp: CP, inner_quiet: u8) -> (r: Quality)
        requires
            old(self).wf(),
            inner_quiet <= 10,
        ensures
            final(self).wf(),
            final(self).settings_spec() == old(self).settings_spec(),
            r.inner_value == quality_bound(
                old(self).settings_spec(),
                ReducedState { cp, inner_quiet },
            ),
    {
        self.get_bound(ReducedState { cp, inner_quiet })
    }

    fn get_bound(&mut self, state: ReducedState) -> (r: Quality)
        requires
            old(self).wf(),
            state.inner_quiet <= 10,
        ensures
            final(self).wf(),
            final(self).settings == old(self).settings,
            r.inner_value == quality_bound(old(self).settings, state),
        decreases cp_measure(state.cp as int), QUALITY_SEARCH_ITEMS + 2,
    {
        let key = quality_key_exec(&state);
        match fx_get(&self.quality_bound, key) {
            Some(quality) => {
                return *quality;
            },
            None => {},
        }
        let bound = self.solve_bound(state);
        let ghost old_memo = self.quality_bound@;
        fx_insert(&mut self.quality_bound, key, bound);
        proof {
            assert forall|rs: ReducedState|
                #[trigger] self.quality_bound@.contains_key(quality_key(rs)) && rs.inner_quiet <= 10
                    implies self.quality_bound@[quality_key(rs)].inner_value == quality_bound(
                    self.settings,
                    rs,
                ) by {
                if quality_key(rs) == key {
                    lemma_quality_key_injective(rs, state);
                } else {
                    assert(old_memo.contains_key(quality_key(rs)));
                }
            }
        }
        bound
    }

    fn solve_bound(&mut self, state: ReducedState) -> (r: Quality)
        requires
            old(self).wf(),
            state.inner_quiet <= 10,
        ensures
            final(self).wf(),
            final(self).settings == old(self).settings,
            r.inner_value == quality_bound(old(self).settings, state),
        decreases cp_measure(state.cp as int), QUALITY_SEARCH_ITEMS + 1,
    {
        let ghost settings = self.settings;
        let mut best_quality = Quality::new(0);
        if state.cp < 0 {
            return best_quality;
        }
        let mut k: usize = 0;
        while k < QUALITY_SEARCH_ITEMS
            invariant
                self.wf(),
                self.settings == settings,
                state.inner_quiet <= 10,
                state.cp >= 0,
                k <= QUALITY_SEARCH_ITEMS,
                best_quality.inner_value == quality_fold(settings, state, k as int),
            decreases QUALITY_SEARCH_ITEMS - k,
        {
            let config = k / 5;
            let great_strides = config / 9 == 1;
            let innovation = ((config / 3) % 3) as CP;
            let waste_not = (config % 3) as CP;
            let effect_cost: CP = innovation * VENERATION_COST + waste_not * WASTE_NOT_COST
                + if great_strides {
                GREAT_STRIDES_COST
            } else {
                0
            };
            assert(effect_cost == item_cost(k as int));
            if effect_cost <= state.cp {
                proof {
                    lemma_item_step(settings, state, k as int);
                }
                let mut full_state = state.to_state();
                full_state.cp = full_state.cp - effect_cost;
                full_state.effects.great_strides = if great_strides {
                    5
                } else {
                    0
                };
                full_state.effects.innovation = innovation as u8;
                full_state.effects.waste_not = waste_not as u8;
                assert(full_state == item_start(state, k as int));
                let sequence = quality_sequence_exec(k % 5);
                let new_state = State::InProgress(full_state).use_actions(
                    sequence,
                    Condition::Normal,
                    &self.settings,
                );
                if let State::InProgress(in_progress) = new_state {
                    let action_quality = Quality::new(100_000).saturating_sub(
                        in_progress.missing_quality,
                    );
                    let child = ReducedState::from_state(&in_progress);
                    let child_bound = self.get_bound(child);
                    let total_quality = action_quality.saturating_add(child_bound);
                    if best_quality.inner_value < total_quality.inner_value {
                        best_quality = total_quality;
                    }
                }
            }
            k = k + 1;
        }
        best_quality
    }
}

/// An item of the search does the same from a state with more CP: where it leaves the craft
/// in progress, it leaves as much more CP.
proof fn lemma_item_cp_shift(settings: Settings, rs: ReducedState, k: int, d: int)
    requires
        rs.inner_quiet <= 10,
        d >= 0,
        rs.cp + d <= i16::MAX,
        0 <= k < QUALITY_SEARCH_ITEMS,
        item_cost(k) <= rs.cp,
        item_state(settings, rs, k) is InProgress,
    ensures
        item_state(settings, ReducedState { cp: (rs.cp + d) as CP, ..rs }, k) == raise_cp(
            item_state(settings, rs, k),
            d,
        ),
{
    let raised = ReducedState { cp: (rs.cp + d) as CP, ..rs };
    let seq = quality_sequence(k % 5);
    assert(seq.len() > 0);
    assert(forall|j: int| 0 <= j < seq.len() ==> #[trigger] seq[j] != Action::TricksOfTheTrade);
    let start = State::InProgress(item_start(rs, k));
    assert(State::InProgress(item_start(raised, k)) == raise_cp(start, d));
    lemma_actions_cp_shift(start, seq, settings, d);
}

/// The quality bound never falls when there is more CP.
pub proof fn lemma_quality_bound_monotone(settings: Settings, rs: ReducedState, d: int)
    requires
        rs.inner_quiet <= 10,
        d >= 0,
        rs.cp + d <= i16::MAX,
    ensures
        quality_bound(settings, rs) <= quality_bound(
            settings,
            ReducedState { cp: (rs.cp + d) as CP, ..rs },
        ),
    decreases cp_measure(rs.cp as int), QUALITY_SEARCH_ITEMS + 1,
{
    if rs.cp >= 0 {
        lemma_fold_monotone(settings, rs, d, QUALITY_SEARCH_ITEMS as int);
    }
}

proof fn lemma_fold_monotone(settings: Settings, rs: ReducedState, d: int, n: int)
    requires
        rs.inner_quiet <= 10,
        rs.cp >= 0,
        d >= 0,
        rs.cp + d <= i16::MAX,
        0 <= n <= QUALITY_SEARCH_ITEMS,
    ensures
        quality_fold(settings, rs, n) <= quality_fold(
            settings,
            ReducedState { cp: (rs.cp + d) as CP, ..rs },
            n,
        ),
    decreases cp_measure(rs.cp as int), n,
{
    let raised = ReducedState { cp: (rs.cp + d) as CP, ..rs };
    if n > 0 {
        let k = n - 1;
        lemma_fold_monotone(settings, rs, d, k);
        if item_cost(k) <= rs.cp {
            lemma_item_step(settings, rs, k);
            lemma_item_step(settings, raised, k);
            if let State::InProgress(ip) = item_state(settings, rs, k) {
                lemma_item_cp_shift(settings, rs, k, d);
                let child = ReducedState::from_state_spec(ip);
                let ip2 = InProgress { cp: (ip.cp + d) as CP, ..ip };
                assert(item_state(settings, raised, k) == State::InProgress(ip2));
                assert(ReducedState::from_state_spec(ip2) == ReducedState { cp: (child.cp + d) as CP, ..child });
                lemma_quality_bound_monotone(settings, child, d);
            }
        }
    }
}

} // verus!
