use rustc_hash::FxHashMap;
use vstd::prelude::*;

use crate::game::actions::{Action, ComboAction};
use crate::game::conditions::Condition;
use crate::game::effects::Effects;
use crate::game::settings::Settings;
use crate::game::state::{InProgress, State};
use crate::game::units::{Durability, Progress, Quality, CP};
use crate::game::actions::NUM_ACTIONS;
use crate::game::state::{lemma_use_action_keeps_valid, lemma_use_actions_append, lemma_valid_is_safe};
use crate::solvers::actions::{durability_actions, progress_actions, ActionMask};
use crate::solvers::memo::{fx_get, fx_insert};
use crate::solvers::finish_solver::reduced_key::{lemma_reduced_key_injective, reduced_key, reduced_key_exec};
use crate::solvers::actions::{actions_upto, durability_action_set, lemma_actions_upto_members, progress_action_set};

pub mod action_sequence;
pub mod reduced_key;

verus! {

/// The missing progress that a reduced state starts from: more than any craft needs.
pub const INF_PROGRESS_VALUE: u32 = 2_000_000;

/// The effects that matter for progress alone.
#[derive(Debug, Clone, Copy, PartialEq, Eq, Structural, Hash)]
pub struct ReducedEffects {
    pub muscle_memory: u8,
    pub waste_not: u8,
    pub veneration: u8,
    pub manipulation: u8,
}

impl ReducedEffects {
    pub open spec fn from_effects_spec(effects: Effects) -> ReducedEffects {
        ReducedEffects {
            muscle_memory: effects.muscle_memory,
            waste_not: effects.waste_not,
            veneration: effects.veneration,
            manipulation: effects.manipulation,
        }
    }

    pub fn from_effects(effects: &Effects) -> (r: ReducedEffects)
        ensures
            r == Self::from_effects_spec(*effects),
    {
        ReducedEffects {
            muscle_memory: effects.muscle_memory,
            waste_not: effects.waste_not,
            veneration: effects.veneration,
            manipulation: effects.manipulation,
        }
    }

    /// The full effects: the kept ones, and no quality effect.
    pub open spec fn to_effects_spec(self) -> Effects {
        Effects {
            inner_quiet: 0,
            waste_not: self.waste_not,
            innovation: 0,
            veneration: self.veneration,
            great_strides: 0,
            muscle_memory: self.muscle_memory,
            manipulation: self.manipulation,
        }
    }

    pub fn to_effects(self) -> (r: Effects)
        ensures
            r == self.to_effects_spec(),
    {
        Effects {
            inner_quiet: 0,
            waste_not: self.waste_not,
            innovation: 0,
            veneration: self.veneration,
            great_strides: 0,
            muscle_memory: self.muscle_memory,
            manipulation: self.manipulation,
        }
    }
}

/// What of a state matters for the progress still reachable: durability, CP, progress
/// effects and combo.
#[derive(Debug, Clone, Copy, PartialEq, Eq, Structural, Hash)]
pub struct ReducedState {
    pub durability: Durability,
    pub cp: CP,
    pub effects: ReducedEffects,
    pub combo: Option<ComboAction>,
}

impl ReducedState {
    pub open spec fn from_state_spec(state: InProgress) -> ReducedState {
        ReducedState {
            durability: state.durability,
            cp: state.cp,
            effects: ReducedEffects::from_effects_spec(state.effects),
            combo: state.combo,
        }
    }

    pub fn from_state(state: &InProgress) -> (r: ReducedState)
        ensures
            r == Self::from_state_spec(*state),
    {
        ReducedState {
            durability: state.durability,
            cp: state.cp,
            effects: ReducedEffects::from_effects(&state.effects),
            combo: state.combo,
        }
    }

    /// A full state with the same durability, CP, effects and combo, nothing of quality, and
    /// far more progress missing than any craft needs.
    pub open spec fn to_state_spec(self) -> InProgress {
        InProgress {
            durability: self.durability,
            cp: self.cp,
            missing_progress: Progress { inner_value: INF_PROGRESS_VALUE },
            missing_quality: Quality { inner_value: 0 },
            effects: self.effects.to_effects_spec(),
            combo: self.combo,
        }
    }

    pub fn to_state(self) -> (r: InProgress)
        ensures
            r == self.to_state_spec(),
    {
        InProgress {
            durability: self.durability,
            cp: self.cp,
            missing_progress: Progress::new(100_000),
            missing_quality: Quality::new(0),
            effects: self.effects.to_effects(),
            combo: self.combo,
        }
    }

    /// A number that every step of the search lowers: CP first, then durability, then the
    /// steps of Manipulation left.
    pub open spec fn measure(self) -> nat {
        ((self.cp + 32768) * 27 + (self.durability + 128) + self.effects.manipulation) as nat
    }

    pub open spec fn is_valid(self, settings: Settings) -> bool {
        self.to_state_spec().is_valid(settings)
    }
}

/// The actions that the finishing search may use.
pub open spec fn search_action_set() -> Set<Action> {
    progress_action_set().union(durability_action_set())
}

/// Every step of the finishing search from a valid state lowers the measure.
pub proof fn lemma_measure_decreases(rs: ReducedState, action: Action, settings: Settings)
    requires
        rs.is_valid(settings),
        search_action_set().contains(action),
        rs.to_state_spec().use_action_spec(action, Condition::Normal, settings) is InProgress,
    ensures
        ReducedState::from_state_spec(
            rs.to_state_spec().use_action_spec(action, Condition::Normal, settings)->0,
        ).measure() < rs.measure(),
{
}

/// What a reduced state can still spend on the finishing search: its CP and durability, and
/// five durability for each step of Manipulation and of Waste Not left.
pub open spec fn finish_potential(rs: ReducedState) -> int {
    rs.cp + rs.durability + 5 * (rs.effects.manipulation + rs.effects.waste_not)
}

/// Every step of the finishing search from a valid state spends at least 3 of the potential.
proof fn lemma_potential_decreases(rs: ReducedState, action: Action, settings: Settings)
    requires
        rs.is_valid(settings),
        search_action_set().contains(action),
        rs.to_state_spec().use_action_spec(action, Condition::Normal, settings) is InProgress,
    ensures
        finish_potential(
            ReducedState::from_state_spec(
                rs.to_state_spec().use_action_spec(action, Condition::Normal, settings)->0,
            ),
        ) + 3 <= finish_potential(rs),
{
}

/// The same holds of a full state: every search action that leaves the craft in progress
/// lowers the measure of what remains of it.
pub proof fn lemma_step_lowers_measure(s: InProgress, action: Action, settings: Settings)
    requires
        s.is_valid(settings),
        search_action_set().contains(action),
        s.use_action_spec(action, Condition::Normal, settings) is InProgress,
    ensures
        ReducedState::from_state_spec(
            s.use_action_spec(action, Condition::Normal, settings)->0,
        ).measure() < ReducedState::from_state_spec(s).measure(),
{
}

/// The actions that the search tries under `settings`, in the order of the list of all actions.
pub open spec fn search_list(settings: Settings) -> Seq<Action> {
    actions_upto(search_action_set().intersect(settings.allowed_actions@), NUM_ACTIONS)
}

/// `a + b`, or `u32::MAX` when that does not fit.
pub open spec fn sat_add(a: int, b: int) -> int {
    if a + b <= u32::MAX {
        a + b
    } else {
        u32::MAX as int
    }
}

pub open spec fn max_int(a: int, b: int) -> int {
    if a < b {
        b
    } else {
        a
    }
}

/// `result` with `sub` laid over it from place `t` on, each value of `sub` raised by `inc`
/// (saturating): where both give a value the larger is kept, and missing places count as 0.
pub open spec fn lay_over(result: Seq<Progress>, sub: Seq<Progress>, t: int, inc: int) -> Seq<
    Progress,
> {
    let len = if result.len() < sub.len() + t {
        sub.len() + t
    } else {
        result.len() as int
    };
    Seq::new(
        len as nat,
        |k: int|
            {
                let base = if k < result.len() {
                    result[k].inner_value as int
                } else {
                    0
                };
                if t <= k < t + sub.len() {
                    Progress {
                        inner_value: max_int(base, sat_add(sub[k - t].inner_value as int, inc)) as u32,
                    }
                } else {
                    Progress { inner_value: base as u32 }
                }
            },
    )
}

/// Each value replaced by the largest value up to it (and at least 0).
pub open spec fn running_max(s: Seq<Progress>) -> Seq<Progress>
    decreases s.len(),
{
    if s.len() == 0 {
        s
    } else {
        let r = running_max(s.drop_last());
        let before = if r.len() == 0 {
            0
        } else {
            r.last().inner_value as int
        };
        r.push(Progress { inner_value: max_int(before, s.last().inner_value as int) as u32 })
    }
}

/// `s` without the values that follow the first value reaching `max_progress`.
pub open spec fn trim(s: Seq<Progress>, max_progress: int) -> Seq<Progress>
    decreases s.len(),
{
    if s.len() >= 2 && s[s.len() - 2].inner_value >= max_progress {
        trim(s.drop_last(), max_progress)
    } else {
        s
    }
}

/// For each time `t`, the most progress that the search actions can add within `t` seconds
/// from `rs` (with durability left, or with the last action breaking the item), as far as it
/// is needed: the table ends at the first time that reaches the recipe's progress.
pub open spec fn finish_table(settings: Settings, rs: ReducedState) -> Seq<Progress>
    decreases rs.measure(), NUM_ACTIONS + 1,
    when rs.is_valid(settings)
{
    proof {
        lemma_actions_upto_members(
            search_action_set().intersect(settings.allowed_actions@),
            NUM_ACTIONS,
            Action::BasicSynthesis,
        );
        assert forall|a: Action| #[trigger] search_list(settings).contains(a) implies search_action_set().contains(a) by {
            lemma_actions_upto_members(
                search_action_set().intersect(settings.allowed_actions@),
                NUM_ACTIONS,
                a,
            );
        }
    }
    trim(
        running_max(finish_fold(settings, rs, search_list(settings))),
        settings.max_progress.inner_value as int,
    )
}

/// The table before its values are made increasing and trimmed: what `actions` (the first of
/// the search actions) give from `rs`, each followed by the best continuation.
pub open spec fn finish_fold(settings: Settings, rs: ReducedState, actions: Seq<Action>) -> Seq<
    Progress,
>
    decreases rs.measure(), actions.len(),
    when rs.is_valid(settings) && forall|a: Action| #[trigger] actions.contains(a) ==> search_action_set().contains(a)
{
    if actions.len() == 0 {
        Seq::empty()
    } else {
        proof {
            assert(actions.drop_last().len() < actions.len());
            assert(actions.contains(actions.last())) by {
                assert(actions[actions.len() - 1] == actions.last());
            }
        }
        let prev = finish_fold(settings, rs, actions.drop_last());
        let action = actions.last();
        match rs.to_state_spec().use_action_spec(action, Condition::Normal, settings) {
            State::InProgress(next) => {
                proof {
                    lemma_use_action_keeps_valid(rs.to_state_spec(), action, Condition::Normal, settings);
                    lemma_measure_decreases(rs, action, settings);
                }
                lay_over(
                    prev,
                    finish_table(settings, ReducedState::from_state_spec(next)),
                    action.time_cost_spec() as int,
                    INF_PROGRESS_VALUE - next.missing_progress.inner_value,
                )
            },
            State::Failed { missing_progress } => lay_over(
                prev,
                seq![Progress { inner_value: 0 }],
                action.time_cost_spec() as int,
                INF_PROGRESS_VALUE - missing_progress.inner_value,
            ),
            _ => prev,
        }
    }
}

/// One step of the fold: the last action of a non-empty list laid over the fold of the rest.
proof fn lemma_fold_step(settings: Settings, rs: ReducedState, actions: Seq<Action>)
    requires
        rs.is_valid(settings),
        actions.len() > 0,
        forall|a: Action| #[trigger] actions.contains(a) ==> search_action_set().contains(a),
    ensures
        forall|a: Action| #[trigger] actions.drop_last().contains(a) ==> search_action_set().contains(a),
        finish_fold(settings, rs, actions) == (match rs.to_state_spec().use_action_spec(
            actions.last(),
            Condition::Normal,
            settings,
        ) {
            State::InProgress(next) => lay_over(
                finish_fold(settings, rs, actions.drop_last()),
                finish_table(settings, ReducedState::from_state_spec(next)),
                actions.last().time_cost_spec() as int,
                INF_PROGRESS_VALUE - next.missing_progress.inner_value,
            ),
            State::Failed { missing_progress } => lay_over(
                finish_fold(settings, rs, actions.drop_last()),
                seq![Progress { inner_value: 0 }],
                actions.last().time_cost_spec() as int,
                INF_PROGRESS_VALUE - missing_progress.inner_value,
            ),
            _ => finish_fold(settings, rs, actions.drop_last()),
        }),
{
    assert forall|a: Action| #[trigger] actions.drop_last().contains(a) implies search_action_set().contains(a) by {
        let k = choose|k: int| 0 <= k < actions.drop_last().len() && actions.drop_last()[k] == a;
        assert(actions[k] == a);
        assert(actions.contains(a));
    }
}

/// Lays `sub` over `result` as `lay_over` says.
fn update_result(
    result: &mut Vec<Progress>,
    sub: &[Progress],
    time_offset: u32,
    progress_increase: Progress,
)
    requires
        sub@.len() + time_offset <= usize::MAX,
    ensures
        final(result)@ == lay_over(
            old(result)@,
            sub@,
            time_offset as int,
            progress_increase.inner_value as int,
        ),
{
    let ghost target = lay_over(
        old(result)@,
        sub@,
        time_offset as int,
        progress_increase.inner_value as int,
    );
    let t = time_offset as usize;
    while result.len() < sub.len() + t
        invariant
            sub@.len() + t <= usize::MAX,
            t == time_offset,
            old(result)@.len() <= result@.len() <= target.len(),
            forall|k: int| 0 <= k < old(result)@.len() ==> result@[k] == old(result)@[k],
            forall|k: int| old(result)@.len() <= k < result@.len() ==> result@[k].inner_value == 0,
            target.len() == (if old(result)@.len() < sub@.len() + t {
                sub@.len() + t
            } else {
                old(result)@.len() as int
            }),
        decreases target.len() - result@.len(),
    {
        result.push(Progress::new(0));
    }
    let mut k: usize = 0;
    while k < sub.len()
        invariant
            k <= sub@.len(),
            t == time_offset,
            sub@.len() + t <= result@.len(),
            sub@.len() + t <= usize::MAX,
            result@.len() == target.len(),
            target == lay_over(old(result)@, sub@, t as int, progress_increase.inner_value as int),
            forall|m: int|
                0 <= m < result@.len() && !(t <= m < t + k) ==> result@[m].inner_value == (if m
                    < old(result)@.len() {
                    old(result)@[m].inner_value as int
                } else {
                    0
                }),
            forall|m: int| t <= m < t + k ==> result@[m] == target[m],
        decreases sub@.len() - k,
    {
        let raised = sub[k].saturating_add(progress_increase);
        let current = result[t + k];
        if current.inner_value < raised.inner_value {
            result.set(t + k, raised);
        }
        k = k + 1;
    }
    assert(result@ =~= target);
}

/// Makes the values increasing and drops those after the first that reaches the recipe's
/// progress.
fn canonicalize(result: &mut Vec<Progress>, max_progress: Progress)
    ensures
        final(result)@ == trim(running_max(old(result)@), max_progress.inner_value as int),
{
    let mut rolling_max = Progress::new(0);
    let mut i: usize = 0;
    while i < result.len()
        invariant
            i <= result@.len(),
            result@.len() == old(result)@.len(),
            result@.take(i as int) == running_max(old(result)@.take(i as int)),
            forall|m: int| i <= m < result@.len() ==> result@[m] == old(result)@[m],
            rolling_max.inner_value == (if i == 0 {
                0
            } else {
                result@[i - 1].inner_value as int
            }),
        decreases result@.len() - i,
    {
        assert(old(result)@.take(i + 1).drop_last() =~= old(result)@.take(i as int));
        let a = result[i];
        if rolling_max.inner_value < a.inner_value {
            rolling_max = a;
        }
        result.set(i, rolling_max);
        assert(result@.take(i + 1) =~= result@.take(i as int).push(rolling_max));
        i = i + 1;
    }
    assert(result@ =~= result@.take(i as int));
    assert(old(result)@ =~= old(result)@.take(i as int));
    let ghost full = result@;
    while result.len() >= 2 && result[result.len() - 2].inner_value >= max_progress.inner_value
        invariant
            trim(result@, max_progress.inner_value as int) == trim(full, max_progress.inner_value as int),
        decreases result@.len(),
    {
        result.pop();
    }
}

fn copy_table(table: &Vec<Progress>) -> (r: Vec<Progress>)
    ensures
        r@ == table@,
{
    let mut r: Vec<Progress> = Vec::new();
    let mut i: usize = 0;
    while i < table.len()
        invariant
            i <= table@.len(),
            r@ == table@.take(i as int),
        decreases table@.len() - i,
    {
        r.push(table[i]);
        i = i + 1;
        assert(r@ =~= table@.take(i as int));
    }
    assert(table@.take(i as int) =~= table@);
    r
}

proof fn lemma_running_max_len(s: Seq<Progress>)
    ensures
        running_max(s).len() == s.len(),
    decreases s.len(),
{
    if s.len() > 0 {
        lemma_running_max_len(s.drop_last());
    }
}

proof fn lemma_trim_len(s: Seq<Progress>, max_progress: int)
    ensures
        trim(s, max_progress).len() <= s.len(),
        s.len() > 0 ==> trim(s, max_progress).len() > 0,
    decreases s.len(),
{
    if s.len() >= 2 && s[s.len() - 2].inner_value >= max_progress {
        lemma_trim_len(s.drop_last(), max_progress);
    }
}

/// A table is never longer than three times the measure, plus four.
pub proof fn lemma_table_len(settings: Settings, rs: ReducedState)
    requires
        rs.is_valid(settings),
    ensures
        finish_table(settings, rs).len() <= 3 * rs.measure() + 4,
    decreases rs.measure(), NUM_ACTIONS + 1,
{
    let list = search_list(settings);
    assert forall|a: Action| #[trigger] list.contains(a) implies search_action_set().contains(a) by {
        lemma_actions_upto_members(
            search_action_set().intersect(settings.allowed_actions@),
            NUM_ACTIONS,
            a,
        );
    }
    lemma_actions_upto_members(
        search_action_set().intersect(settings.allowed_actions@),
        NUM_ACTIONS,
        Action::BasicSynthesis,
    );
    lemma_fold_len(settings, rs, list);
    lemma_running_max_len(finish_fold(settings, rs, list));
    lemma_trim_len(running_max(finish_fold(settings, rs, list)), settings.max_progress.inner_value as int);
}

proof fn lemma_fold_len(settings: Settings, rs: ReducedState, actions: Seq<Action>)
    requires
        rs.is_valid(settings),
        forall|a: Action| #[trigger] actions.contains(a) ==> search_action_set().contains(a),
    ensures
        finish_fold(settings, rs, actions).len() <= 3 * rs.measure() + 4,
    decreases rs.measure(), actions.len(),
{
    if actions.len() > 0 {
        assert forall|a: Action| #[trigger] actions.drop_last().contains(a) implies search_action_set().contains(a) by {
            let k = choose|k: int| 0 <= k < actions.drop_last().len() && actions.drop_last()[k] == a;
            assert(actions[k] == a);
            assert(actions.contains(a));
        }
        assert(actions.contains(actions.last())) by {
            assert(actions[actions.len() - 1] == actions.last());
        }
        lemma_fold_len(settings, rs, actions.drop_last());
        let action = actions.last();
        assert(action.time_cost_spec() <= 3);
        match rs.to_state_spec().use_action_spec(action, Condition::Normal, settings) {
            State::InProgress(next) => {
                lemma_use_action_keeps_valid(rs.to_state_spec(), action, Condition::Normal, settings);
                lemma_measure_decreases(rs, action, settings);
                lemma_table_len(settings, ReducedState::from_state_spec(next));
            },
            _ => {},
        }
    }
}

/// A table is never longer than the potential of its state, plus three.
proof fn lemma_table_len_potential(settings: Settings, rs: ReducedState)
    requires
        rs.is_valid(settings),
    ensures
        finish_table(settings, rs).len() <= finish_potential(rs) + 3,
    decreases rs.measure(), NUM_ACTIONS + 1,
{
    let list = search_list(settings);
    assert forall|a: Action| #[trigger] list.contains(a) implies search_action_set().contains(a) by {
        lemma_actions_upto_members(
            search_action_set().intersect(settings.allowed_actions@),
            NUM_ACTIONS,
            a,
        );
    }
    lemma_actions_upto_members(
        search_action_set().intersect(settings.allowed_actions@),
        NUM_ACTIONS,
        Action::BasicSynthesis,
    );
    lemma_fold_len_potential(settings, rs, list);
    lemma_running_max_len(finish_fold(settings, rs, list));
    lemma_trim_len(running_max(finish_fold(settings, rs, list)), settings.max_progress.inner_value as int);
}

proof fn lemma_fold_len_potential(settings: Settings, rs: ReducedState, actions: Seq<Action>)
    requires
        rs.is_valid(settings),
        forall|a: Action| #[trigger] actions.contains(a) ==> search_action_set().contains(a),
    ensures
        finish_fold(settings, rs, actions).len() <= finish_potential(rs) + 3,
    decreases rs.measure(), actions.len(),
{
    if actions.len() > 0 {
        assert forall|a: Action| #[trigger] actions.drop_last().contains(a) implies search_action_set().contains(a) by {
            let k = choose|k: int| 0 <= k < actions.drop_last().len() && actions.drop_last()[k] == a;
            assert(actions[k] == a);
            assert(actions.contains(a));
        }
        assert(actions.contains(actions.last())) by {
            assert(actions[actions.len() - 1] == actions.last());
        }
        lemma_fold_len_potential(settings, rs, actions.drop_last());
        let action = actions.last();
        assert(action.time_cost_spec() <= 3);
        match rs.to_state_spec().use_action_spec(action, Condition::Normal, settings) {
            State::InProgress(next) => {
                lemma_use_action_keeps_valid(rs.to_state_spec(), action, Condition::Normal, settings);
                lemma_measure_decreases(rs, action, settings);
                lemma_potential_decreases(rs, action, settings);
                lemma_table_len_potential(settings, ReducedState::from_state_spec(next));
            },
            _ => {},
        }
    }
}

/// From a valid state, the first time that finishes the craft, where there is one, leaves
/// room below the finishing search's limit of 100,000 seconds.
pub proof fn lemma_finish_time_within_limit(settings: Settings, s: InProgress)
    requires
        s.is_valid(settings),
    ensures
        first_reaching(
            finish_table(settings, ReducedState::from_state_spec(s)),
            s.missing_progress.inner_value as int,
        ) matches Some(t) ==> t + 3 < 100000,
{
    let rs = ReducedState::from_state_spec(s);
    lemma_table_len_potential(settings, rs);
    lemma_first_reaching_within(finish_table(settings, rs), s.missing_progress.inner_value as int);
}

/// The craft can be finished in time from a valid state exactly when some progress is missing
/// and the search actions can make it.
pub proof fn lemma_finishes_in_time_iff(settings: Settings, s: InProgress)
    requires
        s.is_valid(settings),
        finish_table(settings, ReducedState::from_state_spec(s)).len() > 0,
    ensures
        finishes_in_time(settings, s) <==> (s.missing_progress.inner_value > 0 && finish_table(
            settings,
            ReducedState::from_state_spec(s),
        ).last().inner_value >= s.missing_progress.inner_value),
{
    lemma_finish_time_within_limit(settings, s);
    lemma_can_finish_iff_time(settings, s);
}

/// When Basic Synthesis is among the actions, the fold is not empty.
proof fn lemma_fold_nonempty(settings: Settings, rs: ReducedState, actions: Seq<Action>)
    requires
        rs.is_valid(settings),
        forall|a: Action| #[trigger] actions.contains(a) ==> search_action_set().contains(a),
        actions.contains(Action::BasicSynthesis),
    ensures
        finish_fold(settings, rs, actions).len() > 0,
    decreases actions.len(),
{
    lemma_fold_step(settings, rs, actions);
    let prev = finish_fold(settings, rs, actions.drop_last());
    if actions.last() == Action::BasicSynthesis {
        let s = rs.to_state_spec();
        assert(s.use_action_spec(Action::BasicSynthesis, Condition::Normal, settings) is InProgress
            || s.use_action_spec(Action::BasicSynthesis, Condition::Normal, settings) is Failed);
    } else {
        let k = choose|k: int| 0 <= k < actions.len() && actions[k] == Action::BasicSynthesis;
        assert(k != actions.len() - 1);
        assert(actions.drop_last()[k] == Action::BasicSynthesis);
        assert(actions.drop_last().contains(Action::BasicSynthesis));
        lemma_fold_nonempty(settings, rs, actions.drop_last());
    }
}

/// When Basic Synthesis is allowed, the table of every valid state has a value.
pub proof fn lemma_table_nonempty(settings: Settings, rs: ReducedState)
    requires
        rs.is_valid(settings),
        settings.allowed_actions@.contains(Action::BasicSynthesis),
    ensures
        finish_table(settings, rs).len() > 0,
{
    let set = search_action_set().intersect(settings.allowed_actions@);
    let list = search_list(settings);
    assert forall|a: Action| #[trigger] list.contains(a) implies search_action_set().contains(a) by {
        lemma_actions_upto_members(set, NUM_ACTIONS, a);
    }
    lemma_actions_upto_members(set, NUM_ACTIONS, Action::BasicSynthesis);
    Action::lemma_index_bound(Action::BasicSynthesis);
    lemma_fold_nonempty(settings, rs, list);
    lemma_running_max_len(finish_fold(settings, rs, list));
    lemma_trim_len(running_max(finish_fold(settings, rs, list)), settings.max_progress.inner_value as int);
}

/// The actions that the finishing search may use.
pub fn search_actions() -> (r: ActionMask)
    ensures
        r@ == search_action_set(),
{
    progress_actions().union(durability_actions())
}

/// The first time at which `table` reaches `missing_progress`, if any.
pub open spec fn first_reaching(table: Seq<Progress>, missing_progress: int) -> Option<int>
    decreases table.len(),
{
    if table.len() == 0 {
        None
    } else {
        match first_reaching(table.drop_last(), missing_progress) {
            Some(t) => Some(t),
            None => if table.last().inner_value >= missing_progress {
                Some(table.len() - 1)
            } else {
                None
            },
        }
    }
}

/// Some progress is still missing from `s`, and the search actions can make it.
pub open spec fn finishable(settings: Settings, s: InProgress) -> bool {
    &&& s.missing_progress.inner_value > 0
    &&& finish_table(settings, ReducedState::from_state_spec(s)).last().inner_value
        >= s.missing_progress.inner_value
}

/// The craft can be finished from `s`, some progress is still missing, and the first time
/// that finishes it leaves room below the search's limit of 100,000 seconds.
pub open spec fn finishes_in_time(settings: Settings, s: InProgress) -> bool {
    &&& s.missing_progress.inner_value > 0
    &&& first_reaching(
        finish_table(settings, ReducedState::from_state_spec(s)),
        s.missing_progress.inner_value as int,
    ) matches Some(t) && t + 3 < 100000
}

/// Taking `a` from `c` finishes the craft in `bt` seconds: at once, or with the time it
/// takes and the least time to finish from where it leaves the craft.
pub open spec fn good_choice(settings: Settings, c: InProgress, a: Action, bt: int) -> bool {
    match c.use_action_spec(a, Condition::Normal, settings) {
        State::Completed { .. } => a.time_cost_spec() == bt,
        State::InProgress(ns) => first_reaching(
            finish_table(settings, ReducedState::from_state_spec(ns)),
            ns.missing_progress.inner_value as int,
        ) matches Some(t) && t + a.time_cost_spec() == bt,
        _ => false,
    }
}

/// The time in which taking `a` from `c` finishes the craft, as the search sees it: the
/// action's own time when it completes the craft, or that time added to the least time to
/// finish from where it leaves the craft; `None` when neither is there.
pub open spec fn choice_time(settings: Settings, c: InProgress, a: Action) -> Option<int> {
    match c.use_action_spec(a, Condition::Normal, settings) {
        State::Completed { .. } => Some(a.time_cost_spec() as int),
        State::InProgress(ns) => match first_reaching(
            finish_table(settings, ReducedState::from_state_spec(ns)),
            ns.missing_progress.inner_value as int,
        ) {
            Some(t) => Some(t + a.time_cost_spec()),
            None => None,
        },
        _ => None,
    }
}

/// The choice among the first `n` actions of `list` from `c`: the action that finishes the
/// craft soonest, the first of the list on a tie, with its time; Basic Synthesis and 100,000
/// seconds when none finishes it sooner than that.
pub open spec fn best_choice(settings: Settings, c: InProgress, list: Seq<Action>, n: int) -> (
    Action,
    int,
)
    decreases n,
{
    if n <= 0 {
        (Action::BasicSynthesis, 100000)
    } else {
        let (ba, bt) = best_choice(settings, c, list, n - 1);
        match choice_time(settings, c, list[n - 1]) {
            Some(t) => if t < bt {
                (list[n - 1], t)
            } else {
                (ba, bt)
            },
            None => (ba, bt),
        }
    }
}

/// The action the finishing search takes from `c`.
pub open spec fn greedy_action(settings: Settings, c: InProgress) -> Action {
    best_choice(settings, c, search_list(settings), search_list(settings).len() as int).0
}

/// Finds how to finish a craft (reach full progress) in the least time.
pub struct FinishSolver {
    settings: Settings,
    memoization: FxHashMap<u64, Vec<Progress>>,
}

impl FinishSolver {
    /// The settings the solver works with.
    pub closed spec fn settings_spec(&self) -> Settings {
        self.settings
    }

    /// The settings are valid, and every table in the memo is the table of its state.
    pub closed spec fn wf(&self) -> bool {
        forall|rs: ReducedState|
            #[trigger] self.memoization@.contains_key(reduced_key(rs)) && rs.is_valid(self.settings)
                ==> self.memoization@[reduced_key(rs)]@ == finish_table(self.settings, rs)
    }

    pub fn new(settings: Settings) -> (r: FinishSolver)
        ensures
            r.wf(),
            r.settings_spec() == settings,
    {
        FinishSolver { settings, memoization: FxHashMap::default() }
    }

    /// The table of `state`, computed once and then read from the memo.
    fn solve(&mut self, state: ReducedState) -> (r: Vec<Progress>)
        requires
            old(self).wf(),
            state.is_valid(old(self).settings),
        ensures
            final(self).wf(),
            final(self).settings == old(self).settings,
            r@ == finish_table(old(self).settings, state),
        decreases state.measure(),
    {
        let key = reduced_key_exec(&state);
        match fx_get(&self.memoization, key) {
            Some(result) => {
                return copy_table(result);
            },
            None => {},
        }
        let ghost settings = self.settings;
        let actions = search_actions().intersection(self.settings.allowed_actions).actions_iter();
        proof {
            assert forall|a: Action| #[trigger] actions@.contains(a) implies search_action_set().contains(a) by {
                lemma_actions_upto_members(
                    search_action_set().intersect(settings.allowed_actions@),
                    NUM_ACTIONS,
                    a,
                );
            }
        }
        let mut result: Vec<Progress> = Vec::new();
        let mut i: usize = 0;
        while i < actions.len()
            invariant
                self.wf(),
                self.settings == settings,
                state.is_valid(settings),
                actions@ == search_list(settings),
                forall|a: Action| #[trigger] actions@.contains(a) ==> search_action_set().contains(a),
                i <= actions@.len(),
                result@ == finish_fold(settings, state, actions@.take(i as int)),
            decreases actions@.len() - i,
        {
            let action = actions[i];
            let ghost prefix = actions@.take(i + 1);
            proof {
                assert(prefix.drop_last() =~= actions@.take(i as int));
                assert(prefix.last() == action);
                assert(actions@.contains(action));
                assert forall|a: Action| #[trigger] prefix.contains(a) implies search_action_set().contains(a) by {
                    let k = choose|k: int| 0 <= k < prefix.len() && prefix[k] == a;
                    assert(actions@[k] == a);
                    assert(actions@.contains(a));
                }
                lemma_fold_step(settings, state, prefix);
            }
            let in_progress = state.to_state();
            proof {
                lemma_valid_is_safe(in_progress, action, Condition::Normal, settings);
                lemma_use_action_keeps_valid(in_progress, action, Condition::Normal, settings);
            }
            let new_state = in_progress.use_action(action, Condition::Normal, &self.settings);
            match new_state {
                State::InProgress(next) => {
                    proof {
                        lemma_measure_decreases(state, action, settings);
                    }
                    let progress = Progress::new(100_000).sub(next.missing_progress);
                    let child = ReducedState::from_state(&next);
                    let sub = self.solve(child);
                    proof {
                        lemma_table_len(settings, child);
                    }
                    let ghost prev = result@;
                    update_result(&mut result, sub.as_slice(), action.time_cost(), progress);
                    assert(result@ == finish_fold(settings, state, prefix));
                },
                State::Failed { missing_progress } => {
                    let progress = Progress::new(100_000).sub(missing_progress);
                    let zero = vec![Progress::new(0)];
                    assert(zero@ =~= seq![Progress { inner_value: 0 }]);
                    update_result(&mut result, zero.as_slice(), action.time_cost(), progress);
                    assert(result@ == finish_fold(settings, state, prefix));
                },
                _ => {
                    assert(result@ == finish_fold(settings, state, prefix));
                },
            }
            i = i + 1;
        }
        proof {
            assert(actions@.take(i as int) =~= actions@);
        }
        canonicalize(&mut result, self.settings.max_progress);
        let stored = copy_table(&result);
        let ghost old_memo = self.memoization@;
        fx_insert(&mut self.memoization, key, stored);
        proof {
            assert forall|rs: ReducedState|
                #[trigger] self.memoization@.contains_key(reduced_key(rs)) && rs.is_valid(
                    self.settings,
                ) implies self.memoization@[reduced_key(rs)]@ == finish_table(self.settings, rs) by {
                if reduced_key(rs) == key {
                    lemma_reduced_key_injective(rs, state);
                } else {
                    assert(old_memo.contains_key(reduced_key(rs)));
                }
            }
        }
        result
    }

    /// A sequence of search actions that brings the craft from `state` to full progress:
    /// at each step the action after which the craft is finished soonest, the first such
    /// action of the list on a tie. `None` when the search actions cannot finish the craft;
    /// a sequence of allowed actions whenever some progress is missing and they can
    /// (`finishable`).
    #[verifier::rlimit(60)]
    pub fn get_finish_sequence(&mut self, state: InProgress) -> (r: Option<Vec<Action>>)
        requires
            old(self).wf(),
            state.is_valid(old(self).settings_spec()),
            finish_table(old(self).settings_spec(), ReducedState::from_state_spec(state)).len()
                > 0,
        ensures
            final(self).wf(),
            final(self).settings_spec() == old(self).settings_spec(),
            finish_table(old(self).settings_spec(), ReducedState::from_state_spec(state)).last().inner_value
                < state.missing_progress.inner_value ==> r is None,
            finishable(old(self).settings_spec(), state) ==> r is Some,
            r matches Some(seq) ==> forall|k: int|
                0 <= k < seq@.len() ==> (State::InProgress(state).use_actions_spec(
                    #[trigger] seq@.take(k),
                    Condition::Normal,
                    old(self).settings_spec(),
                ) matches State::InProgress(c) && seq@[k] == greedy_action(
                    old(self).settings_spec(),
                    c,
                )),
            state.missing_progress.inner_value == 0
                && old(self).settings_spec().allowed_actions@.contains(Action::BasicSynthesis)
                ==> r is Some,
            r matches Some(seq) ==> State::InProgress(state).use_actions_spec(
                seq@,
                Condition::Normal,
                old(self).settings_spec(),
            ) is Completed,
            r matches Some(seq) ==> forall|k: int|
                0 <= k < seq@.len() ==> search_action_set().contains(#[trigger] seq@[k]),
            finishable(old(self).settings_spec(), state) ==> (r matches Some(seq) && forall|k: int|
                0 <= k < seq@.len() ==> old(self).settings_spec().allowed_actions@.contains(
                    #[trigger] seq@[k],
                )),
            old(self).settings_spec().allowed_actions@.contains(Action::BasicSynthesis)
                && state.missing_progress.inner_value <= old(self).settings_spec().max_progress.inner_value
                && finishable(old(self).settings_spec(), state) ==> (r matches Some(seq)
                && total_time(seq@) == first_reaching(
                finish_table(old(self).settings_spec(), ReducedState::from_state_spec(state)),
                state.missing_progress.inner_value as int,
            )->0),
    {
        proof {
            lemma_can_finish_iff_time(old(self).settings_spec(), state);
            lemma_finishes_in_time_iff(old(self).settings_spec(), state);
        }
        if !self.can_finish(&state) {
            return None;
        }
        let ghost settings = self.settings;
        let ghost on_track = finishes_in_time(settings, state);
        let ghost opt = on_track && settings.allowed_actions@.contains(Action::BasicSynthesis)
            && state.missing_progress.inner_value <= settings.max_progress.inner_value;
        let ghost t0 = first_reaching(
            finish_table(settings, ReducedState::from_state_spec(state)),
            state.missing_progress.inner_value as int,
        )->0;
        let ghost zero = state.missing_progress.inner_value == 0
            && settings.allowed_actions@.contains(Action::BasicSynthesis);
        let mut current = state;
        let mut finish_sequence: Vec<Action> = Vec::new();
        proof {
            assert(State::InProgress(state).use_actions_spec(finish_sequence@, Condition::Normal, settings)
                == State::InProgress(current));
        }
        loop
            invariant
                self.wf(),
                self.settings == settings,
                settings == old(self).settings_spec(),
                on_track == finishes_in_time(settings, state),
                finishable(settings, state) ==> on_track,
                on_track ==> finishes_in_time(settings, current),
                opt == (on_track && settings.allowed_actions@.contains(Action::BasicSynthesis)
                    && state.missing_progress.inner_value <= settings.max_progress.inner_value),
                t0 == first_reaching(
                    finish_table(settings, ReducedState::from_state_spec(state)),
                    state.missing_progress.inner_value as int,
                )->0,
                opt ==> current.missing_progress.inner_value <= settings.max_progress.inner_value,
                zero == (state.missing_progress.inner_value == 0
                    && settings.allowed_actions@.contains(Action::BasicSynthesis)),
                zero ==> current == state,
                forall|k: int|
                    0 <= k < finish_sequence@.len() ==> (State::InProgress(state).use_actions_spec(
                        #[trigger] finish_sequence@.take(k),
                        Condition::Normal,
                        settings,
                    ) matches State::InProgress(c) && finish_sequence@[k] == greedy_action(settings, c)),
                on_track ==> forall|k: int|
                    0 <= k < finish_sequence@.len() ==> settings.allowed_actions@.contains(
                        #[trigger] finish_sequence@[k],
                    ),
                opt ==> total_time(finish_sequence@) + first_reaching(
                    finish_table(settings, ReducedState::from_state_spec(current)),
                    current.missing_progress.inner_value as int,
                )->0 == t0,
                finish_table(settings, ReducedState::from_state_spec(state)).last().inner_value
                    >= state.missing_progress.inner_value,
                current.is_valid(settings),
                State::InProgress(state).use_actions_spec(finish_sequence@, Condition::Normal, settings)
                    == State::InProgress(current),
                forall|k: int|
                    0 <= k < finish_sequence@.len() ==> search_action_set().contains(
                        #[trigger] finish_sequence@[k],
                    ),
            decreases ReducedState::from_state_spec(current).measure(),
        {
            let mut best_time: u32 = 100000;
            let mut best_action = Action::BasicSynthesis;
            let actions = search_actions().intersection(self.settings.allowed_actions).actions_iter();
            let ghost rs = ReducedState::from_state_spec(current);
            let ghost mp = current.missing_progress.inner_value as int;
            let ghost g = finishes_in_time(settings, current);
            let ghost mut w: int = 0;
            let ghost mut tw: int = 0;
            let ghost mut big_t: int = 0;
            let ghost mut wb: int = 0;
            proof {
                if zero {
                    lemma_actions_upto_members(
                        search_action_set().intersect(settings.allowed_actions@),
                        NUM_ACTIONS,
                        Action::BasicSynthesis,
                    );
                    assert(actions@ == search_list(settings));
                    wb = choose|j: int| 0 <= j < actions@.len() && actions@[j] == Action::BasicSynthesis;
                }
                assert forall|a: Action| #[trigger] actions@.contains(a) implies search_action_set().contains(a) by {
                    lemma_actions_upto_members(
                        search_action_set().intersect(settings.allowed_actions@),
                        NUM_ACTIONS,
                        a,
                    );
                }
                assert(actions@ == search_list(settings));
                if g {
                    big_t = first_reaching(finish_table(settings, rs), mp)->0;
                    lemma_table_witness(settings, rs, mp);
                    let (wi, ti) = choose|i: int, t: int|
                        0 <= i < search_list(settings).len() && 0 <= t <= big_t
                            && #[trigger] action_reaches(settings, rs, search_list(settings)[i], t, mp);
                    w = wi;
                    tw = ti;
                }
            }
            let mut i: usize = 0;
            while i < actions.len()
                invariant
                    self.wf(),
                    self.settings == settings,
                    current.is_valid(settings),
                    rs == ReducedState::from_state_spec(current),
                    mp == current.missing_progress.inner_value,
                    actions@ == search_list(settings),
                    i <= actions@.len(),
                    forall|a: Action| #[trigger] actions@.contains(a) ==> search_action_set().contains(a),
                    search_action_set().contains(best_action),
                    best_time <= 100000,
                    best_time < 100000 ==> good_choice(settings, current, best_action, best_time as int),
                    g == finishes_in_time(settings, current),
                    g ==> 0 <= w < actions@.len() && 0 <= tw <= big_t && big_t + 3 < 100000
                        && action_reaches(settings, rs, actions@[w], tw, mp),
                    g && w < i ==> best_time <= big_t,
                    opt ==> g && settings.allowed_actions@.contains(Action::BasicSynthesis)
                        && mp <= settings.max_progress.inner_value,
                    g ==> big_t == first_reaching(finish_table(settings, rs), mp)->0,
                    opt ==> best_time >= big_t,
                    best_time < 100000 ==> actions@.contains(best_action),
                    zero ==> current == state && current.missing_progress.inner_value == 0
                        && 0 <= wb < actions@.len()
                        && actions@[wb] == Action::BasicSynthesis,
                    zero && best_time < 100000 ==> current.use_action_spec(
                        best_action,
                        Condition::Normal,
                        settings,
                    ) is Completed,
                    zero && i > wb ==> best_time < 100000,
                    (best_action, best_time as int) == best_choice(settings, current, actions@, i as int),
                decreases actions@.len() - i,
            {
                let action = actions[i];
                assert(actions@.contains(action));
                proof {
                    lemma_valid_is_safe(current, action, Condition::Normal, settings);
                    lemma_use_action_keeps_valid(current, action, Condition::Normal, settings);
                    lemma_reduced_step(current, action, settings);
                    if zero {
                        assert(current.missing_progress.inner_value == 0);
                        let gained = current.gain_state(action, Condition::Normal);
                        assert(gained.missing_progress.inner_value == 0);
                        assert(current.use_action_spec(action, Condition::Normal, settings) !is InProgress);
                        if i == wb {
                            assert(action == Action::BasicSynthesis);
                            assert(current.can_use_action_spec(action, Condition::Normal));
                            assert(current.use_action_spec(action, Condition::Normal, settings) is Completed);
                        }
                    }
                    if opt {
                        lemma_finish_lower_bound(settings, current, action);
                    }
                }
                match current.use_action(action, Condition::Normal, &self.settings) {
                    State::InProgress(new_state) => {
                        proof {
                            lemma_finish_time_bound(settings, new_state);
                            if g && i == w {
                                let ro = rs.to_state_spec().use_action_spec(action, Condition::Normal, settings);
                                if let State::InProgress(next) = ro {
                                    let c = action.time_cost_spec() as int;
                                    let sub = finish_table(settings, ReducedState::from_state_spec(next));
                                    assert(sub == finish_table(settings, ReducedState::from_state_spec(new_state)));
                                    lemma_first_reaching_le(sub, tw - c, new_state.missing_progress.inner_value as int);
                                }
                            }
                        }
                        let time = self.time_to_finish(&new_state);
                        match time {
                            Some(t) => {
                                if t + action.time_cost() < best_time {
                                    best_time = t + action.time_cost();
                                    best_action = action;
                                }
                            },
                            None => {},
                        }
                    },
                    State::Completed { .. } => {
                        if action.time_cost() < best_time {
                            best_time = action.time_cost();
                            best_action = action;
                        }
                    },
                    _ => {},
                }
                i = i + 1;
            }
            let ghost before = finish_sequence@;
            finish_sequence.push(best_action);
            proof {
                assert(best_action == greedy_action(settings, current));
                assert(finish_sequence@.take(before.len() as int) =~= before);
                assert forall|k: int| 0 <= k < before.len() implies #[trigger] finish_sequence@.take(k)
                    == before.take(k) && finish_sequence@[k] == before[k] by {
                    assert(finish_sequence@.take(k) =~= before.take(k));
                }
                lemma_valid_is_safe(current, best_action, Condition::Normal, settings);
                lemma_use_action_keeps_valid(current, best_action, Condition::Normal, settings);
                lemma_use_actions_append(State::InProgress(state), before, seq![best_action], Condition::Normal, settings);
                assert(finish_sequence@ =~= before + seq![best_action]);
                let one = seq![best_action];
                assert(one[0] == best_action);
                assert(one.drop_first() =~= Seq::<Action>::empty());
                let next = current.use_action_spec(best_action, Condition::Normal, settings);
                assert(State::InProgress(current).use_actions_spec(one, Condition::Normal, settings)
                    == next.use_actions_spec(Seq::<Action>::empty(), Condition::Normal, settings));
                assert(State::InProgress(state).use_actions_spec(finish_sequence@, Condition::Normal, settings)
                    == next);
                if g {
                    assert(best_time <= big_t);
                    lemma_actions_upto_members(
                        search_action_set().intersect(settings.allowed_actions@),
                        NUM_ACTIONS,
                        best_action,
                    );
                    assert(settings.allowed_actions@.contains(finish_sequence@[before.len() as int]));
                }
                if opt {
                    lemma_finish_lower_bound(settings, current, best_action);
                    assert(finish_sequence@.drop_last() =~= before);
                    assert(total_time(finish_sequence@) == total_time(before)
                        + best_action.time_cost_spec());
                }
            }
            match current.use_action(best_action, Condition::Normal, &self.settings) {
                State::InProgress(new_state) => {
                    proof {
                        lemma_step_lowers_measure(current, best_action, settings);
                    }
                    current = new_state;
                },
                State::Completed { .. } => {
                    return Some(finish_sequence);
                },
                _ => {
                    return None;
                },
            }
        }
    }

    /// `true` when the search actions can bring the craft to full progress.
    pub fn can_finish(&mut self, state: &InProgress) -> (r: bool)
        requires
            old(self).wf(),
            state.is_valid(old(self).settings_spec()),
            finish_table(old(self).settings_spec(), ReducedState::from_state_spec(*state)).len()
                > 0,
        ensures
            final(self).wf(),
            final(self).settings_spec() == old(self).settings_spec(),
            r == (finish_table(
                old(self).settings_spec(),
                ReducedState::from_state_spec(*state),
            ).last().inner_value >= state.missing_progress.inner_value),
    {
        let result = self.solve(ReducedState::from_state(state));
        result[result.len() - 1].inner_value >= state.missing_progress.inner_value
    }

    /// The least time in which the search actions bring the craft to full progress.
    pub fn time_to_finish(&mut self, state: &InProgress) -> (r: Option<u32>)
        requires
            old(self).wf(),
            state.is_valid(old(self).settings_spec()),
        ensures
            final(self).wf(),
            final(self).settings_spec() == old(self).settings_spec(),
            r == (match first_reaching(
                finish_table(old(self).settings_spec(), ReducedState::from_state_spec(*state)),
                state.missing_progress.inner_value as int,
            ) {
                Some(t) => Some(t as u32),
                None => None,
            }),
    {
        let result = self.solve(ReducedState::from_state(state));
        proof {
            lemma_table_len(self.settings, ReducedState::from_state_spec(*state));
        }
        let ghost table = result@;
        assert(table == finish_table(self.settings, ReducedState::from_state_spec(*state)));
        let mp = state.missing_progress.inner_value;
        let mut time: usize = 0;
        while time < result.len()
            invariant
                self.wf(),
                self.settings == old(self).settings,
                table == result@,
                table == finish_table(old(self).settings_spec(), ReducedState::from_state_spec(*state)),
                mp == state.missing_progress.inner_value,
                table.len() <= 6_000_000,
                time <= result@.len(),
                first_reaching(table.take(time as int), mp as int) is None,
            decreases result@.len() - time,
        {
            assert(table.take(time + 1).drop_last() =~= table.take(time as int));
            if result[time].inner_value >= mp {
                assert(first_reaching(table.take(time + 1), mp as int) == Some(time as int));
                proof {
                    lemma_first_reaching_prefix(table, time + 1, mp as int);
                }
                return Some(time as u32);
            }
            time = time + 1;
        }
        assert(table.take(time as int) =~= table);
        None
    }
}

/// The first time that reaches a value lies within the table.
proof fn lemma_first_reaching_within(table: Seq<Progress>, mp: int)
    ensures
        first_reaching(table, mp) matches Some(t) ==> 0 <= t < table.len(),
    decreases table.len(),
{
    if table.len() > 0 {
        lemma_first_reaching_within(table.drop_last(), mp);
    }
}

/// The time to finish from a valid state, where there is one, is below six million seconds.
proof fn lemma_finish_time_bound(settings: Settings, s: InProgress)
    requires
        s.is_valid(settings),
    ensures
        first_reaching(
            finish_table(settings, ReducedState::from_state_spec(s)),
            s.missing_progress.inner_value as int,
        ) matches Some(t) ==> 0 <= t < 6_000_000,
{
    let rs = ReducedState::from_state_spec(s);
    lemma_table_len(settings, rs);
    lemma_first_reaching_within(finish_table(settings, rs), s.missing_progress.inner_value as int);
}

/// A running maximum never falls.
proof fn lemma_running_max_sorted(s: Seq<Progress>)
    ensures
        running_max(s).len() == s.len(),
        forall|i: int, j: int|
            0 <= i <= j < s.len() ==> running_max(s)[i].inner_value <= running_max(s)[j].inner_value,
    decreases s.len(),
{
    lemma_running_max_len(s);
    if s.len() > 0 {
        lemma_running_max_sorted(s.drop_last());
        let r = running_max(s.drop_last());
        let full = running_max(s);
        assert forall|i: int, j: int| 0 <= i <= j < s.len() implies full[i].inner_value <= full[j].inner_value by {
            if j < s.len() - 1 {
                assert(full[i] == r[i] && full[j] == r[j]);
            } else if i < s.len() - 1 {
                assert(full[i] == r[i]);
                assert(r[i].inner_value <= r.last().inner_value);
            }
        }
    }
}

/// Trimming keeps a prefix.
proof fn lemma_trim_prefix(s: Seq<Progress>, max_progress: int)
    ensures
        trim(s, max_progress).len() <= s.len(),
        forall|i: int| 0 <= i < trim(s, max_progress).len() ==> trim(s, max_progress)[i] == s[i],
    decreases s.len(),
{
    if s.len() >= 2 && s[s.len() - 2].inner_value >= max_progress {
        lemma_trim_prefix(s.drop_last(), max_progress);
        let t = trim(s, max_progress);
        assert(t == trim(s.drop_last(), max_progress));
        assert forall|i: int| 0 <= i < t.len() implies t[i] == s[i] by {
            assert(s.drop_last()[i] == s[i]);
        }
    }
}

/// Some time reaches the value exactly when some value of the table reaches it.
proof fn lemma_first_reaching_exists(table: Seq<Progress>, mp: int)
    ensures
        first_reaching(table, mp) is Some <==> exists|k: int|
            0 <= k < table.len() && table[k].inner_value >= mp,
    decreases table.len(),
{
    if table.len() > 0 {
        let prev = table.drop_last();
        lemma_first_reaching_exists(prev, mp);
        if exists|k: int| 0 <= k < prev.len() && prev[k].inner_value >= mp {
            let k = choose|k: int| 0 <= k < prev.len() && prev[k].inner_value >= mp;
            assert(table[k] == prev[k]);
        }
        if exists|k: int| 0 <= k < table.len() && table[k].inner_value >= mp {
            let k = choose|k: int| 0 <= k < table.len() && table[k].inner_value >= mp;
            if k < prev.len() {
                assert(prev[k] == table[k]);
            }
        }
    }
}

/// The table of a state never falls: a later time reaches at least the progress of an
/// earlier one.
pub proof fn lemma_table_sorted(settings: Settings, rs: ReducedState)
    requires
        rs.is_valid(settings),
    ensures
        forall|i: int, j: int|
            0 <= i <= j < finish_table(settings, rs).len() ==> finish_table(settings, rs)[i].inner_value
                <= finish_table(settings, rs)[j].inner_value,
{
    let list = search_list(settings);
    assert forall|a: Action| #[trigger] list.contains(a) implies search_action_set().contains(a) by {
        lemma_actions_upto_members(
            search_action_set().intersect(settings.allowed_actions@),
            NUM_ACTIONS,
            a,
        );
    }
    lemma_actions_upto_members(
        search_action_set().intersect(settings.allowed_actions@),
        NUM_ACTIONS,
        Action::BasicSynthesis,
    );
    let folded = finish_fold(settings, rs, list);
    let rm = running_max(folded);
    let table = trim(rm, settings.max_progress.inner_value as int);
    assert(finish_table(settings, rs) == table);
    lemma_running_max_sorted(folded);
    lemma_trim_prefix(rm, settings.max_progress.inner_value as int);
    assert forall|i: int, j: int| 0 <= i <= j < table.len() implies table[i].inner_value
        <= table[j].inner_value by {
        assert(table[i] == rm[i] && table[j] == rm[j]);
    }
}

/// `can_finish` and `time_to_finish` agree: the craft can be finished from a state exactly
/// when there is a time to finish it.
pub proof fn lemma_can_finish_iff_time(settings: Settings, state: InProgress)
    requires
        state.is_valid(settings),
        finish_table(settings, ReducedState::from_state_spec(state)).len() > 0,
    ensures
        (finish_table(settings, ReducedState::from_state_spec(state)).last().inner_value
            >= state.missing_progress.inner_value) <==> first_reaching(
            finish_table(settings, ReducedState::from_state_spec(state)),
            state.missing_progress.inner_value as int,
        ) is Some,
{
    let rs = ReducedState::from_state_spec(state);
    let table = finish_table(settings, rs);
    let mp = state.missing_progress.inner_value as int;
    lemma_table_sorted(settings, rs);
    lemma_first_reaching_exists(table, mp);
    if exists|k: int| 0 <= k < table.len() && table[k].inner_value >= mp {
        let k = choose|k: int| 0 <= k < table.len() && table[k].inner_value >= mp;
        assert(table[k].inner_value <= table[table.len() - 1].inner_value);
    }
    if table.last().inner_value >= mp {
        assert(table[table.len() - 1].inner_value >= mp);
    }
}

/// Action `a` from `rs` makes `m` progress in time `t`: it leaves the craft in progress and
/// the table of where it leaves it, shifted by its time and raised by its progress, reaches
/// `m` at `t`; or the item breaks on it at time `t` after it made `m` progress.
pub open spec fn action_reaches(settings: Settings, rs: ReducedState, a: Action, t: int, m: int) -> bool {
    match rs.to_state_spec().use_action_spec(a, Condition::Normal, settings) {
        State::InProgress(next) => {
            let c = a.time_cost_spec() as int;
            let sub = finish_table(settings, ReducedState::from_state_spec(next));
            &&& c <= t < c + sub.len()
            &&& sat_add(sub[t - c].inner_value as int, INF_PROGRESS_VALUE - next.missing_progress.inner_value) >= m
        },
        State::Failed { missing_progress } => {
            &&& t == a.time_cost_spec()
            &&& sat_add(0, INF_PROGRESS_VALUE - missing_progress.inner_value) >= m
        },
        _ => false,
    }
}

/// A value of a running maximum that reaches `m > 0` comes from a value at or before it.
proof fn lemma_running_max_witness(s: Seq<Progress>, k: int, m: int)
    requires
        0 <= k < s.len(),
        m > 0,
        running_max(s)[k].inner_value >= m,
    ensures
        exists|j: int| 0 <= j <= k && #[trigger] s[j].inner_value >= m,
    decreases s.len(),
{
    lemma_running_max_len(s);
    let prev = s.drop_last();
    lemma_running_max_len(prev);
    if k < s.len() - 1 {
        assert(running_max(s)[k] == running_max(prev)[k]);
        lemma_running_max_witness(prev, k, m);
        let j = choose|j: int| 0 <= j <= k && #[trigger] prev[j].inner_value >= m;
        assert(s[j] == prev[j]);
    } else {
        let r = running_max(prev);
        let before = if r.len() == 0 {
            0
        } else {
            r.last().inner_value as int
        };
        if s.last().inner_value >= m {
            assert(s[k].inner_value >= m);
        } else {
            assert(before >= m);
            lemma_running_max_witness(prev, k - 1, m);
            let j = choose|j: int| 0 <= j <= k - 1 && #[trigger] prev[j].inner_value >= m;
            assert(s[j] == prev[j]);
        }
    }
}

/// A value of the fold that reaches `m > 0` is made by one of the actions.
proof fn lemma_fold_witness(settings: Settings, rs: ReducedState, actions: Seq<Action>, t: int, m: int)
    requires
        rs.is_valid(settings),
        forall|a: Action| #[trigger] actions.contains(a) ==> search_action_set().contains(a),
        0 <= t < finish_fold(settings, rs, actions).len(),
        m > 0,
        finish_fold(settings, rs, actions)[t].inner_value >= m,
    ensures
        exists|i: int| 0 <= i < actions.len() && action_reaches(settings, rs, #[trigger] actions[i], t, m),
    decreases actions.len(),
{
    lemma_fold_step(settings, rs, actions);
    let prev = finish_fold(settings, rs, actions.drop_last());
    let a = actions.last();
    let last = actions.len() - 1;
    assert(actions[last] == a);
    let base = if t < prev.len() {
        prev[t].inner_value as int
    } else {
        0
    };
    match rs.to_state_spec().use_action_spec(a, Condition::Normal, settings) {
        State::InProgress(next) => {
            let c = a.time_cost_spec() as int;
            let sub = finish_table(settings, ReducedState::from_state_spec(next));
            let inc = INF_PROGRESS_VALUE - next.missing_progress.inner_value;
            if c <= t < c + sub.len() && sat_add(sub[t - c].inner_value as int, inc) >= m {
                assert(action_reaches(settings, rs, actions[last], t, m));
            } else {
                assert(base >= m);
                lemma_fold_witness(settings, rs, actions.drop_last(), t, m);
                let i = choose|i: int| 0 <= i < actions.drop_last().len() && action_reaches(settings, rs, #[trigger] actions.drop_last()[i], t, m);
                assert(actions[i] == actions.drop_last()[i]);
            }
        },
        State::Failed { missing_progress } => {
            let c = a.time_cost_spec() as int;
            let inc = INF_PROGRESS_VALUE - missing_progress.inner_value;
            if t == c && sat_add(0, inc) >= m {
                assert(action_reaches(settings, rs, actions[last], t, m));
            } else {
                assert(base >= m);
                lemma_fold_witness(settings, rs, actions.drop_last(), t, m);
                let i = choose|i: int| 0 <= i < actions.drop_last().len() && action_reaches(settings, rs, #[trigger] actions.drop_last()[i], t, m);
                assert(actions[i] == actions.drop_last()[i]);
            }
        },
        _ => {
            lemma_fold_witness(settings, rs, actions.drop_last(), t, m);
            let i = choose|i: int| 0 <= i < actions.drop_last().len() && action_reaches(settings, rs, #[trigger] actions.drop_last()[i], t, m);
            assert(actions[i] == actions.drop_last()[i]);
        },
    }
}

/// The first time that reaches `m` reaches it.
proof fn lemma_first_reaching_value(table: Seq<Progress>, m: int)
    ensures
        first_reaching(table, m) matches Some(t) ==> 0 <= t < table.len() && table[t].inner_value >= m,
    decreases table.len(),
{
    if table.len() > 0 {
        lemma_first_reaching_value(table.drop_last(), m);
        if let Some(t) = first_reaching(table.drop_last(), m) {
            assert(table[t] == table.drop_last()[t]);
        }
    }
}

/// A time that reaches `m` is no earlier than the first time that does.
proof fn lemma_first_reaching_le(table: Seq<Progress>, k: int, m: int)
    requires
        0 <= k < table.len(),
        table[k].inner_value >= m,
    ensures
        first_reaching(table, m) matches Some(t) && t <= k,
    decreases table.len(),
{
    if k < table.len() - 1 {
        assert(table.drop_last()[k] == table[k]);
        lemma_first_reaching_le(table.drop_last(), k, m);
    } else {
        lemma_first_reaching_value(table.drop_last(), m);
    }
}

/// When the table of `rs` first reaches `m > 0` at time `T`, some search action makes `m`
/// progress by time `T`.
proof fn lemma_table_witness(settings: Settings, rs: ReducedState, m: int)
    requires
        rs.is_valid(settings),
        m > 0,
        first_reaching(finish_table(settings, rs), m) is Some,
    ensures
        exists|i: int, t: int|
            0 <= i < search_list(settings).len() && 0 <= t <= first_reaching(finish_table(settings, rs), m)->0
                && #[trigger] action_reaches(settings, rs, search_list(settings)[i], t, m),
{
    let list = search_list(settings);
    assert forall|a: Action| #[trigger] list.contains(a) implies search_action_set().contains(a) by {
        lemma_actions_upto_members(
            search_action_set().intersect(settings.allowed_actions@),
            NUM_ACTIONS,
            a,
        );
    }
    lemma_actions_upto_members(
        search_action_set().intersect(settings.allowed_actions@),
        NUM_ACTIONS,
        Action::BasicSynthesis,
    );
    let folded = finish_fold(settings, rs, list);
    let rm = running_max(folded);
    let table = trim(rm, settings.max_progress.inner_value as int);
    assert(finish_table(settings, rs) == table);
    lemma_first_reaching_value(table, m);
    let big_t = first_reaching(table, m)->0;
    lemma_trim_prefix(rm, settings.max_progress.inner_value as int);
    lemma_running_max_len(folded);
    assert(rm[big_t] == table[big_t]);
    lemma_running_max_witness(folded, big_t, m);
    let j = choose|j: int| 0 <= j <= big_t && #[trigger] folded[j].inner_value >= m;
    lemma_fold_witness(settings, rs, list, j, m);
    let i = choose|i: int| 0 <= i < list.len() && action_reaches(settings, rs, #[trigger] list[i], j, m);
    assert(action_reaches(settings, rs, list[i], j, m));
}

/// A search action on a state does what it does on its reduced state, as far as the search
/// sees: refused on both or neither; where the reduced state stays in progress, the state
/// is completed if the action's progress covers what it misses, and otherwise stays in
/// progress with the same reduced state and less progress missing.
proof fn lemma_reduced_step(s: InProgress, a: Action, settings: Settings)
    requires
        s.is_valid(settings),
        search_action_set().contains(a),
    ensures
        ({
            let rs = ReducedState::from_state_spec(s);
            let ro = rs.to_state_spec().use_action_spec(a, Condition::Normal, settings);
            let o = s.use_action_spec(a, Condition::Normal, settings);
            &&& (ro is Invalid <==> o is Invalid)
            &&& (ro matches State::InProgress(next) ==> {
                let inc = INF_PROGRESS_VALUE - next.missing_progress.inner_value;
                if inc >= s.missing_progress.inner_value {
                    o is Completed
                } else {
                    o matches State::InProgress(ns) && ReducedState::from_state_spec(ns)
                        == ReducedState::from_state_spec(next) && ns.missing_progress.inner_value
                        == s.missing_progress.inner_value - inc
                }
            })
            &&& (ro matches State::Failed { missing_progress } ==> (INF_PROGRESS_VALUE
                - missing_progress.inner_value >= s.missing_progress.inner_value ==> o is Completed))
            &&& ro !is Completed
            &&& (ro is Failed ==> o !is InProgress)
        }),
{
    crate::solvers::upper_bound_solver::relaxed::lemma_action_bounds(a, s);
}

/// Once a prefix reaches the value, the whole table reaches it at the same time.
proof fn lemma_first_reaching_prefix(table: Seq<Progress>, n: int, mp: int)
    requires
        0 <= n <= table.len(),
        first_reaching(table.take(n), mp) is Some,
    ensures
        first_reaching(table, mp) == first_reaching(table.take(n), mp),
    decreases table.len() - n,
{
    if n < table.len() {
        assert(table.take(n + 1).drop_last() =~= table.take(n));
        lemma_first_reaching_prefix(table, n + 1, mp);
    } else {
        assert(table.take(n) =~= table);
    }
}


/// The time that a sequence of actions takes.
pub open spec fn total_time(actions: Seq<Action>) -> int
    decreases actions.len(),
{
    if actions.len() == 0 {
        0
    } else {
        total_time(actions.drop_last()) + actions.last().time_cost_spec()
    }
}

/// Each action's progress shows in the fold: where an action makes `m` progress at time `t`,
/// the fold has a value of at least `m` at `t`.
proof fn lemma_fold_dominates(
    settings: Settings,
    rs: ReducedState,
    actions: Seq<Action>,
    i: int,
    t: int,
    m: int,
)
    requires
        rs.is_valid(settings),
        forall|a: Action| #[trigger] actions.contains(a) ==> search_action_set().contains(a),
        0 <= i < actions.len(),
        action_reaches(settings, rs, actions[i], t, m),
    ensures
        0 <= t < finish_fold(settings, rs, actions).len(),
        finish_fold(settings, rs, actions)[t].inner_value >= m,
    decreases actions.len(),
{
    lemma_fold_step(settings, rs, actions);
    let prev = finish_fold(settings, rs, actions.drop_last());
    let a = actions.last();
    let c = a.time_cost_spec() as int;
    let folded = finish_fold(settings, rs, actions);
    if i < actions.len() - 1 {
        assert(actions.drop_last()[i] == actions[i]);
        lemma_fold_dominates(settings, rs, actions.drop_last(), i, t, m);
        assert(folded[t].inner_value >= prev[t].inner_value);
    } else {
        assert(a == actions[i]);
        match rs.to_state_spec().use_action_spec(a, Condition::Normal, settings) {
            State::InProgress(next) => {
                let sub = finish_table(settings, ReducedState::from_state_spec(next));
                assert(folded[t].inner_value >= sat_add(
                    sub[t - c].inner_value as int,
                    INF_PROGRESS_VALUE - next.missing_progress.inner_value,
                ));
            },
            State::Failed { missing_progress } => {
                let one = seq![Progress { inner_value: 0 }];
                assert(one[t - c].inner_value == 0);
                assert(folded[t].inner_value >= sat_add(0, INF_PROGRESS_VALUE - missing_progress.inner_value));
            },
            _ => {},
        }
    }
}

/// A running maximum is at least the value it replaces.
proof fn lemma_running_max_ge(s: Seq<Progress>, k: int)
    requires
        0 <= k < s.len(),
    ensures
        running_max(s).len() == s.len(),
        running_max(s)[k].inner_value >= s[k].inner_value,
    decreases s.len(),
{
    lemma_running_max_len(s);
    lemma_running_max_len(s.drop_last());
    if k < s.len() - 1 {
        lemma_running_max_ge(s.drop_last(), k);
        assert(running_max(s)[k] == running_max(s.drop_last())[k]);
    }
}

/// Where trimming cut values off, the last value kept reaches `max_progress`.
proof fn lemma_trim_short(s: Seq<Progress>, max_progress: int)
    ensures
        trim(s, max_progress).len() < s.len() ==> trim(s, max_progress).len() > 0
            && trim(s, max_progress).last().inner_value >= max_progress,
    decreases s.len(),
{
    if s.len() >= 2 && s[s.len() - 2].inner_value >= max_progress {
        let d = s.drop_last();
        lemma_trim_short(d, max_progress);
        lemma_trim_prefix(d, max_progress);
        let t = trim(d, max_progress);
        assert(trim(s, max_progress) == t);
        if t.len() == d.len() {
            assert(t[t.len() - 1] == d[d.len() - 1]);
        }
    }
}

/// Where a search action makes `m` progress (at most the recipe's) at time `t`, the table
/// reaches `m` no later than `t`.
proof fn lemma_table_dominates(settings: Settings, rs: ReducedState, a: Action, t: int, m: int)
    requires
        rs.is_valid(settings),
        search_list(settings).contains(a),
        m <= settings.max_progress.inner_value,
        action_reaches(settings, rs, a, t, m),
    ensures
        first_reaching(finish_table(settings, rs), m) matches Some(big_t) && big_t <= t,
{
    let list = search_list(settings);
    assert forall|b: Action| #[trigger] list.contains(b) implies search_action_set().contains(b) by {
        lemma_actions_upto_members(
            search_action_set().intersect(settings.allowed_actions@),
            NUM_ACTIONS,
            b,
        );
    }
    lemma_actions_upto_members(
        search_action_set().intersect(settings.allowed_actions@),
        NUM_ACTIONS,
        Action::BasicSynthesis,
    );
    let i = choose|i: int| 0 <= i < list.len() && list[i] == a;
    lemma_fold_dominates(settings, rs, list, i, t, m);
    let folded = finish_fold(settings, rs, list);
    let rm = running_max(folded);
    let mx = settings.max_progress.inner_value as int;
    let table = trim(rm, mx);
    assert(finish_table(settings, rs) == table);
    lemma_running_max_ge(folded, t);
    lemma_trim_prefix(rm, mx);
    lemma_trim_short(rm, mx);
    if t < table.len() {
        assert(table[t] == rm[t]);
        lemma_first_reaching_le(table, t, m);
    } else {
        lemma_first_reaching_le(table, table.len() - 1, m);
    }
}

/// No search action finishes a craft sooner than its table says: an action that completes
/// it takes at least that long, and one that leaves it in progress, with the time to finish
/// from there added, too.
proof fn lemma_finish_lower_bound(settings: Settings, s: InProgress, a: Action)
    requires
        s.is_valid(settings),
        search_list(settings).contains(a),
        settings.allowed_actions@.contains(Action::BasicSynthesis),
        0 < s.missing_progress.inner_value <= settings.max_progress.inner_value,
    ensures
        s.use_action_spec(a, Condition::Normal, settings) is Completed ==> (first_reaching(
            finish_table(settings, ReducedState::from_state_spec(s)),
            s.missing_progress.inner_value as int,
        ) matches Some(big_t) && big_t <= a.time_cost_spec()),
        s.use_action_spec(a, Condition::Normal, settings) matches State::InProgress(ns) ==> {
            &&& ns.missing_progress.inner_value <= s.missing_progress.inner_value
            &&& (first_reaching(
                finish_table(settings, ReducedState::from_state_spec(ns)),
                ns.missing_progress.inner_value as int,
            ) matches Some(t) ==> (first_reaching(
                finish_table(settings, ReducedState::from_state_spec(s)),
                s.missing_progress.inner_value as int,
            ) matches Some(big_t) && big_t <= t + a.time_cost_spec()))
        },
{
    let rs = ReducedState::from_state_spec(s);
    let mp = s.missing_progress.inner_value as int;
    let c = a.time_cost_spec() as int;
    lemma_actions_upto_members(
        search_action_set().intersect(settings.allowed_actions@),
        NUM_ACTIONS,
        a,
    );
    lemma_reduced_step(s, a, settings);
    let ro = rs.to_state_spec().use_action_spec(a, Condition::Normal, settings);
    let o = s.use_action_spec(a, Condition::Normal, settings);
    match ro {
        State::InProgress(next) => {
            lemma_use_action_keeps_valid(rs.to_state_spec(), a, Condition::Normal, settings);
            let nrs = ReducedState::from_state_spec(next);
            let sub = finish_table(settings, nrs);
            let inc = INF_PROGRESS_VALUE - next.missing_progress.inner_value;
            if inc >= mp {
                lemma_table_nonempty(settings, nrs);
                assert(action_reaches(settings, rs, a, c, mp));
                lemma_table_dominates(settings, rs, a, c, mp);
            } else if let State::InProgress(ns) = o {
                let nmp = ns.missing_progress.inner_value as int;
                if let Some(t) = first_reaching(sub, nmp) {
                    lemma_first_reaching_value(sub, nmp);
                    assert(action_reaches(settings, rs, a, c + t, mp));
                    lemma_table_dominates(settings, rs, a, c + t, mp);
                }
            }
        },
        State::Failed { missing_progress } => {
            if INF_PROGRESS_VALUE - missing_progress.inner_value >= mp {
                assert(action_reaches(settings, rs, a, c, mp));
                lemma_table_dominates(settings, rs, a, c, mp);
            }
        },
        _ => {},
    }
}

/// The search actions raise no quality: what one leaves has the quality missing that the
/// craft had.
pub proof fn lemma_search_action_keeps_quality(s: InProgress, a: Action, settings: Settings)
    requires
        search_action_set().contains(a),
    ensures
        s.use_action_spec(a, Condition::Normal, settings) matches State::Completed { missing_quality }
            ==> missing_quality == s.missing_quality,
        s.use_action_spec(a, Condition::Normal, settings) matches State::InProgress(n)
            ==> n.missing_quality == s.missing_quality,
{
    assert(a.base_quality_increase_spec() == 0);
    assert(a.quality_before_condition(s.effects) == 0);
    assert(a.quality_after_condition(s.effects, Condition::Normal) == 0);
    assert(a.quality_after_inner_quiet(s.effects, Condition::Normal) == 0);
    assert(a.quality_increase_spec(s.effects, Condition::Normal) == 0);
}

/// A run of search actions that completes the craft leaves the quality missing that it found.
pub proof fn lemma_search_run_keeps_quality(s: InProgress, actions: Seq<Action>, settings: Settings)
    requires
        forall|k: int| 0 <= k < actions.len() ==> search_action_set().contains(#[trigger] actions[k]),
    ensures
        State::InProgress(s).use_actions_spec(actions, Condition::Normal, settings) matches State::Completed {
            missing_quality,
        } ==> missing_quality == s.missing_quality,
    decreases actions.len(),
{
    if actions.len() > 0 {
        let a = actions[0];
        let rest = actions.drop_first();
        lemma_search_action_keeps_quality(s, a, settings);
        let first = s.use_action_spec(a, Condition::Normal, settings);
        assert(State::InProgress(s).use_actions_spec(actions, Condition::Normal, settings)
            == first.use_actions_spec(rest, Condition::Normal, settings));
        match first {
            State::InProgress(n) => {
                assert forall|k: int| 0 <= k < rest.len() implies search_action_set().contains(
                    #[trigger] rest[k],
                ) by {
                    assert(rest[k] == actions[k + 1]);
                }
                lemma_search_run_keeps_quality(n, rest, settings);
            },
            _ => {
                if rest.len() > 0 {
                    assert(first.use_actions_spec(rest, Condition::Normal, settings) == State::Invalid);
                } else {
                    assert(first.use_actions_spec(rest, Condition::Normal, settings) == first);
                }
            },
        }
    }
}

/// The time of a non-empty sequence is that of its first action and of the rest.
proof fn lemma_total_time_first(actions: Seq<Action>)
    requires
        actions.len() > 0,
    ensures
        total_time(actions) == actions[0].time_cost_spec() + total_time(actions.drop_first()),
    decreases actions.len(),
{
    if actions.len() > 1 {
        lemma_total_time_first(actions.drop_last());
        assert(actions.drop_last().drop_first() =~= actions.drop_first().drop_last());
        assert(actions.drop_last()[0] == actions[0]);
    } else {
        assert(actions.drop_first() =~= Seq::<Action>::empty());
        assert(actions.drop_last() =~= Seq::<Action>::empty());
    }
}

/// No sequence of allowed search actions finishes the craft faster than the least time the
/// table gives: when Basic Synthesis is allowed and at most the recipe's progress is missing,
/// every such sequence that completes the craft takes at least `time_to_finish` seconds.
pub proof fn lemma_finish_time_is_least(settings: Settings, s: InProgress, actions: Seq<Action>)
    requires
        s.is_valid(settings),
        settings.allowed_actions@.contains(Action::BasicSynthesis),
        0 < s.missing_progress.inner_value <= settings.max_progress.inner_value,
        forall|k: int|
            0 <= k < actions.len() ==> search_action_set().contains(#[trigger] actions[k])
                && settings.allowed_actions@.contains(actions[k]),
        State::InProgress(s).use_actions_spec(actions, Condition::Normal, settings) is Completed,
    ensures
        first_reaching(
            finish_table(settings, ReducedState::from_state_spec(s)),
            s.missing_progress.inner_value as int,
        ) matches Some(big_t) && big_t <= total_time(actions),
    decreases actions.len(),
{
    if actions.len() == 0 {
        assert(State::InProgress(s).use_actions_spec(actions, Condition::Normal, settings)
            == State::InProgress(s));
    } else {
        let a = actions[0];
        let rest = actions.drop_first();
        lemma_total_time_first(actions);
        Action::lemma_index_bound(a);
        lemma_actions_upto_members(
            search_action_set().intersect(settings.allowed_actions@),
            NUM_ACTIONS,
            a,
        );
        lemma_finish_lower_bound(settings, s, a);
        lemma_use_action_keeps_valid(s, a, Condition::Normal, settings);
        let first = s.use_action_spec(a, Condition::Normal, settings);
        assert(State::InProgress(s).use_actions_spec(actions, Condition::Normal, settings)
            == first.use_actions_spec(rest, Condition::Normal, settings));
        match first {
            State::InProgress(ns) => {
                assert(ns.missing_progress.inner_value > 0);
                assert forall|k: int| 0 <= k < rest.len() implies search_action_set().contains(
                    #[trigger] rest[k],
                ) && settings.allowed_actions@.contains(rest[k]) by {
                    assert(rest[k] == actions[k + 1]);
                }
                lemma_finish_time_is_least(settings, ns, rest);
                lemma_total_time_nonneg(rest);
            },
            State::Completed { .. } => {
                if rest.len() > 0 {
                    assert(first.use_actions_spec(rest, Condition::Normal, settings) == State::Invalid);
                }
                assert(rest =~= Seq::<Action>::empty());
            },
            _ => {
                if rest.len() > 0 {
                    assert(first.use_actions_spec(rest, Condition::Normal, settings) == State::Invalid);
                } else {
                    assert(first.use_actions_spec(rest, Condition::Normal, settings) == first);
                }
            },
        }
    }
}

proof fn lemma_total_time_nonneg(actions: Seq<Action>)
    ensures
        total_time(actions) >= 0,
    decreases actions.len(),
{
    if actions.len() > 0 {
        lemma_total_time_nonneg(actions.drop_last());
    }
}

} // verus!
