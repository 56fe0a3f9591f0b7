use rustc_hash::FxHashMap;
use vstd::prelude::*;

use crate::game::actions::Action;
use crate::game::conditions::Condition;
use crate::game::effects::Effects;
use crate::game::settings::Settings;
use crate::game::state::{InProgress, State};
use crate::game::units::{Durability, Progress, Quality, CP};
use crate::solvers::memo::{fx_get, fx_insert};
use crate::solvers::upper_bound_solver::constants::{DURABILITY_COST, WASTE_NOT_COST};
use crate::solvers::upper_bound_solver::relaxed::{
    is_relaxed, is_restoring, lemma_actions_cp_shift, lemma_relaxed_run, raise_cp,
};
use crate::solvers::upper_bound_solver::upper_bound_solver::sat_diff;
use crate::solvers::upper_bound_solver::quality_bound_solver::{cp_measure, sat_sum};

verus! {

/// The durability of the states searched.
pub const MAX_DURABILITY: Durability = 100;

/// The progress missing in the states searched (100,000 potency).
pub const MAX_PROGRESS_VALUE: u32 = 2_000_000;

/// The quality missing in the states searched (100,000 potency).
pub const MAX_QUALITY_VALUE: u32 = 80_000_000;

/// The number of progress sequences.
pub const PROGRESS_SEQUENCES: usize = 7;

/// The number of steps the search tries from each state: each progress sequence, without and
/// with as many steps of Waste Not as it has actions.
pub const PROGRESS_SEARCH_ITEMS: usize = 14;

/// The progress sequences of the search.
pub open spec fn progress_sequence(i: int) -> Seq<Action> {
    if i == 0 {
        seq![Action::MuscleMemory]
    } else if i == 1 {
        seq![Action::BasicSynthesis]
    } else if i == 2 {
        seq![Action::CarefulSynthesis]
    } else if i == 3 {
        seq![Action::Groundwork]
    } else if i == 4 {
        seq![Action::PrudentSynthesis]
    } else if i == 5 {
        seq![Action::Observe, Action::FocusedSynthesis]
    } else {
        seq![Action::Veneration]
    }
}

fn progress_sequence_exec(i: usize) -> (r: &'static [Action])
    requires
        i < PROGRESS_SEQUENCES,
    ensures
        r@ == progress_sequence(i as int),
{
    let r: &'static [Action] = if i == 0 {
        &[Action::MuscleMemory]
    } else if i == 1 {
        &[Action::BasicSynthesis]
    } else if i == 2 {
        &[Action::CarefulSynthesis]
    } else if i == 3 {
        &[Action::Groundwork]
    } else if i == 4 {
        &[Action::PrudentSynthesis]
    } else if i == 5 {
        &[Action::Observe, Action::FocusedSynthesis]
    } else {
        &[Action::Veneration]
    };
    assert(r@ =~= progress_sequence(i as int));
    r
}

/// What the progress search remembers of a state: CP (durability counted in CP), Muscle
/// Memory and Veneration.
#[derive(Debug, Clone, Copy, PartialEq, Eq, Structural, Hash)]
pub struct ReducedState {
    pub cp: CP,
    pub muscle_memory: u8,
    pub veneration: u8,
}

impl ReducedState {
    /// The durability used below 100 is charged in CP, 12 for every 5.
    pub open spec fn from_state_spec(state: InProgress) -> ReducedState {
        ReducedState {
            cp: (state.cp - (DURABILITY_COST * (MAX_DURABILITY - state.durability)) / 5) as CP,
            muscle_memory: state.effects.muscle_memory,
            veneration: state.effects.veneration,
        }
    }

    pub fn from_state(state: &InProgress) -> (r: ReducedState)
        requires
            is_relaxed(*state),
        ensures
            r == Self::from_state_spec(*state),
    {
        let durability_cost = DURABILITY_COST * (MAX_DURABILITY - state.durability) as CP / 5;
        ReducedState {
            cp: state.cp - durability_cost,
            muscle_memory: state.effects.muscle_memory,
            veneration: state.effects.veneration,
        }
    }

    /// The state searched from: full durability, no effect but Muscle Memory and Veneration,
    /// and far more progress and quality missing than any craft has.
    pub open spec fn to_state_spec(self) -> InProgress {
        InProgress {
            cp: self.cp,
            durability: MAX_DURABILITY,
            missing_progress: Progress { inner_value: MAX_PROGRESS_VALUE },
            missing_quality: Quality { inner_value: MAX_QUALITY_VALUE },
            effects: Effects {
                muscle_memory: self.muscle_memory,
                veneration: self.veneration,
                ..Effects::none()
            },
            combo: None,
        }
    }

    pub fn to_state(self) -> (r: InProgress)
        ensures
            r == self.to_state_spec(),
    {
        InProgress {
            cp: self.cp,
            durability: MAX_DURABILITY,
            missing_progress: Progress::new(100_000),
            missing_quality: Quality::new(100_000),
            effects: Effects {
                muscle_memory: self.muscle_memory,
                veneration: self.veneration,
                ..Default::default()
            },
            combo: None,
        }
    }
}

/// Waste Not for `duration` steps, bought with CP: refused when the CP does not cover it.
pub open spec fn apply_waste_not_spec(state: State, duration: u8) -> State {
    match state {
        State::InProgress(s) => {
            let cost = duration * WASTE_NOT_COST;
            if cost > s.cp {
                State::Invalid
            } else {
                State::InProgress(
                    InProgress {
                        cp: (s.cp - cost) as CP,
                        effects: Effects { waste_not: duration, ..s.effects },
                        ..s
                    },
                )
            }
        },
        _ => State::Invalid,
    }
}

fn apply_waste_not(state: State, duration: u8) -> (r: State)
    requires
        duration <= 8,
    ensures
        r == apply_waste_not_spec(state, duration),
{
    match state {
        State::InProgress(mut in_progress) => {
            let effect_cost: CP = duration as CP * WASTE_NOT_COST;
            if effect_cost > in_progress.cp {
                return State::Invalid;
            }
            in_progress.cp = in_progress.cp - effect_cost;
            in_progress.effects.waste_not = duration;
            State::InProgress(in_progress)
        },
        _ => State::Invalid,
    }
}

/// The state that item `k` starts its sequence from: Waste Not first for the odd items.
pub open spec fn item_start(rs: ReducedState, k: int) -> State {
    if k % 2 == 1 {
        apply_waste_not_spec(
            State::InProgress(rs.to_state_spec()),
            progress_sequence(k / 2).len() as u8,
        )
    } else {
        State::InProgress(rs.to_state_spec())
    }
}

/// What item `k` of the search leaves from `rs`.
pub open spec fn item_state(settings: Settings, rs: ReducedState, k: int) -> State {
    item_start(rs, k).use_actions_spec(progress_sequence(k / 2), Condition::Normal, settings)
}

/// Item `k` is safe from a reduced state with CP, and what it leaves in progress has less CP
/// once durability is counted.
pub proof fn lemma_item_step(settings: Settings, rs: ReducedState, k: int)
    requires
        rs.cp >= 0,
        0 <= k < PROGRESS_SEARCH_ITEMS,
    ensures
        item_start(rs, k).use_actions_safe(progress_sequence(k / 2), Condition::Normal, settings),
        item_state(settings, rs, k) matches State::InProgress(n) ==> {
            &&& is_relaxed(n)
            &&& n.cp <= rs.cp
            &&& cp_measure(ReducedState::from_state_spec(n).cp as int) < cp_measure(rs.cp as int)
        },
{
    let seq = progress_sequence(k / 2);
    assert(seq.len() > 0);
    assert(forall|j: int| 0 <= j < seq.len() ==> !is_restoring(#[trigger] seq[j]));
    match item_start(rs, k) {
        State::InProgress(start) => {
            assert(is_relaxed(start));
            assert(start.cp <= rs.cp && start.durability == 100);
            lemma_relaxed_run(start, seq, settings);
        },
        _ => {
            assert(item_state(settings, rs, k) == State::Invalid);
        },
    }
}

/// The most progress that the progress sequences reach from `rs`: the best, over every
/// sequence (with and without Waste Not bought for it) that leaves the craft in progress, of
/// the progress it makes plus the bound of the state it leaves.
pub open spec fn progress_bound(settings: Settings, rs: ReducedState) -> u32
    decreases cp_measure(rs.cp as int), PROGRESS_SEARCH_ITEMS + 1,
{
    if rs.cp < 0 {
        0
    } else {
        progress_fold(settings, rs, PROGRESS_SEARCH_ITEMS as int)
    }
}

/// The best of the first `n` items of the search from `rs` (0 when there is none).
pub open spec fn progress_fold(settings: Settings, rs: ReducedState, n: int) -> u32
    decreases cp_measure(rs.cp as int), n,
    when rs.cp >= 0 && n <= PROGRESS_SEARCH_ITEMS
{
    if n <= 0 {
        0
    } else {
        let best = progress_fold(settings, rs, n - 1);
        proof {
            lemma_item_step(settings, rs, n - 1);
        }
        match item_state(settings, rs, n - 1) {
            State::InProgress(ip) => {
                let total = sat_sum(
                    sat_diff(MAX_PROGRESS_VALUE, ip.missing_progress.inner_value),
                    progress_bound(settings, ReducedState::from_state_spec(ip)),
                );
                if best < total {
                    total
                } else {
                    best
                }
            },
            _ => best,
        }
    }
}

/// 2 to the power `e`.
pub open spec fn two_pow(e: nat) -> int
    decreases e,
{
    if e == 0 {
        1
    } else {
        2 * two_pow((e - 1) as nat)
    }
}

/// The first `e` from `from` on (up to 14) for which `2^e` CP reach `missing` progress.
pub open spec fn doubling_exponent(
    settings: Settings,
    missing: u32,
    muscle_memory: u8,
    veneration: u8,
    from: nat,
) -> nat
    decreases 14 - from,
{
    if from >= 14 || progress_bound(
        settings,
        ReducedState { cp: two_pow(from) as CP, muscle_memory, veneration },
    ) >= missing {
        from
    } else {
        doubling_exponent(settings, missing, muscle_memory, veneration, from + 1)
    }
}

/// The binary search from `result` by steps `base`, `base / 2`, ..., 1: a step is taken when
/// the CP after it still falls short of `missing` progress.
pub open spec fn cp_search(
    settings: Settings,
    missing: u32,
    muscle_memory: u8,
    veneration: u8,
    result: int,
    base: int,
) -> int
    decreases base,
{
    if base <= 0 {
        result
    } else {
        let next = if progress_bound(
            settings,
            ReducedState { cp: (result + base) as CP, muscle_memory, veneration },
        ) < missing {
            result + base
        } else {
            result
        };
        cp_search(settings, missing, muscle_memory, veneration, next, base / 2)
    }
}

/// Some CP up to 2^14 reaches `missing` progress, so the doubling stops before it overflows.
pub open spec fn cp_lower_bound_defined(
    settings: Settings,
    missing: u32,
    muscle_memory: u8,
    veneration: u8,
) -> bool {
    exists|e: nat|
        1 <= e <= 14 && #[trigger] progress_bound(
            settings,
            ReducedState { cp: two_pow(e) as CP, muscle_memory, veneration },
        ) >= missing
}

/// The CP that the search finds for `missing` progress: it doubles a step until twice the
/// step reaches the progress, then searches below by halving steps, and adds 1.
pub open spec fn cp_lower_bound_spec(
    settings: Settings,
    missing: u32,
    muscle_memory: u8,
    veneration: u8,
) -> int {
    let e = doubling_exponent(settings, missing, muscle_memory, veneration, 1);
    cp_search(settings, missing, muscle_memory, veneration, 0, two_pow((e - 1) as nat)) + 1
}

/// The key of a reduced state in the memo of bounds.
pub open spec fn progress_key(rs: ReducedState) -> u64 {
    (rs.cp as u16 as u64) | ((rs.muscle_memory as u64) << 16u64) | ((rs.veneration as u64)
        << 24u64)
}

fn progress_key_exec(rs: &ReducedState) -> (r: u64)
    ensures
        r == progress_key(*rs),
{
    (rs.cp as u16 as u64) | ((rs.muscle_memory as u64) << 16u64) | ((rs.veneration as u64)
        << 24u64)
}

proof fn lemma_progress_key_injective(a: ReducedState, b: ReducedState)
    requires
        progress_key(a) == progress_key(b),
    ensures
        a == b,
{
    let (c1, m1, v1, c2, m2, v2) = (
        a.cp,
        a.muscle_memory,
        a.veneration,
        b.cp,
        b.muscle_memory,
        b.veneration,
    );
    assert(c1 == c2 && m1 == m2 && v1 == v2) by (bit_vector)
        requires
            (c1 as u16 as u64) | ((m1 as u64) << 16u64) | ((v1 as u64) << 24u64) == (c2 as u16
                as u64) | ((m2 as u64) << 16u64) | ((v2 as u64) << 24u64),
    ;
}

/// The key of a query in the memo of CP bounds.
pub open spec fn cp_key(missing: u32, muscle_memory: u8, veneration: u8) -> u64 {
    (missing as u64) | ((muscle_memory as u64) << 32u64) | ((veneration as u64) << 40u64)
}

fn cp_key_exec(missing: u32, muscle_memory: u8, veneration: u8) -> (r: u64)
    ensures
        r == cp_key(missing, muscle_memory, veneration),
{
    (missing as u64) | ((muscle_memory as u64) << 32u64) | ((veneration as u64) << 40u64)
}

proof fn lemma_cp_key_injective(p1: u32, m1: u8, v1: u8, p2: u32, m2: u8, v2: u8)
    requires
        cp_key(p1, m1, v1) == cp_key(p2, m2, v2),
    ensures
        p1 == p2 && m1 == m2 && v1 == v2,
{
    assert(p1 == p2 && m1 == m2 && v1 == v2) by (bit_vector)
        requires
            (p1 as u64) | ((m1 as u64) << 32u64) | ((v1 as u64) << 40u64) == (p2 as u64) | ((
            m2 as u64) << 32u64) | ((v2 as u64) << 40u64),
    ;
}

/// Bounds the progress that progress actions can still make by CP, Muscle Memory and
/// Veneration, and the CP that some progress needs; both memoized.
pub struct ProgressBoundSolver {
    settings: Settings,
    progress_upper_bound: FxHashMap<u64, Progress>,
    cp_lower_bound: FxHashMap<u64, CP>,
}

impl ProgressBoundSolver {
    pub closed spec fn settings_spec(&self) -> Settings {
        self.settings
    }

    /// Every value in the memos is the value of its key.
    pub closed spec fn wf(&self) -> bool {
        &&& forall|rs: ReducedState|
            #[trigger] self.progress_upper_bound@.contains_key(progress_key(rs))
                ==> self.progress_upper_bound@[progress_key(rs)].inner_value == progress_bound(
                self.settings,
                rs,
            )
        &&& forall|p: u32, m: u8, v: u8|
            #[trigger] self.cp_lower_bound@.contains_key(cp_key(p, m, v)) ==> cp_lower_bound_defined(
                self.settings,
                p,
                m,
                v,
            ) && self.cp_lower_bound@[cp_key(p, m, v)] == cp_lower_bound_spec(self.settings, p, m, v)
    }

    pub fn new(settings: Settings) -> (r: Self)
        ensures
            r.wf(),
            r.settings_spec() == settings,
    {
        ProgressBoundSolver {
            settings,
            progress_upper_bound: FxHashMap::default(),
            cp_lower_bound: FxHashMap::default(),
        }
    }

    /// The most progress that progress actions make with `cp` CP under the given effects (see
    /// `progress_bound`).
    pub fn get_progress_upper_bound(&mut self, cp: CP, muscle_memory: u8, veneration: u8) -> (r:
        Progress)
        requires
            old(self).wf(),
        ensures
            final(self).wf(),
            final(self).settings_spec() == old(self).settings_spec(),
            r.inner_value == progress_bound(
                old(self).settings_spec(),
                ReducedState { cp, muscle_memory, veneration },
            ),
    {
        self.get_bound(ReducedState { cp, muscle_memory, veneration })
    }

    /// The CP that `missing_progress` needs under the given effects, as the search of
    /// `cp_lower_bound_spec` finds it: the least CP from 1 on whose bound reaches the
    /// progress.
    pub fn get_cp_lower_bound(&mut self, missing_progress: Progress, muscle_memory: u8, veneration: u8) -> (r: CP)
        requires
            old(self).wf(),
            cp_lower_bound_defined(
                old(self).settings_spec(),
                missing_progress.inner_value,
                muscle_memory,
                veneration,
            ),
        ensures
            final(self).wf(),
            final(self).settings_spec() == old(self).settings_spec(),
            r == cp_lower_bound_spec(
                old(self).settings_spec(),
                missing_progress.inner_value,
                muscle_memory,
                veneration,
            ),
            1 <= r <= 16384,
            bound_at(old(self).settings_spec(), r as int, muscle_memory, veneration)
                >= missing_progress.inner_value,
            forall|c: int|
                1 <= c < r ==> #[trigger] bound_at(old(self).settings_spec(), c, muscle_memory, veneration)
                    < missing_progress.inner_value,
    {
        proof {
            lemma_cp_lower_bound_least(
                self.settings,
                missing_progress.inner_value,
                muscle_memory,
                veneration,
            );
        }
        let key = cp_key_exec(missing_progress.inner_value, muscle_memory, veneration);
        match fx_get(&self.cp_lower_bound, key) {
            Some(cp) => {
                return *cp;
            },
            None => {},
        }
        let result = self.solve_cp_lower_bound(missing_progress, muscle_memory, veneration);
        let ghost old_memo = self.cp_lower_bound@;
        fx_insert(&mut self.cp_lower_bound, key, result);
        proof {
            assert forall|p: u32, m: u8, v: u8|
                #[trigger] self.cp_lower_bound@.contains_key(cp_key(p, m, v)) implies cp_lower_bound_defined(
                    self.settings,
                    p,
                    m,
                    v,
                ) && self.cp_lower_bound@[cp_key(p, m, v)] == cp_lower_bound_spec(self.settings, p, m, v) by {
                if cp_key(p, m, v) == key {
                    lemma_cp_key_injective(p, m, v, missing_progress.inner_value, muscle_memory, veneration);
                } else {
                    assert(old_memo.contains_key(cp_key(p, m, v)));
                }
            }
        }
        result
    }

    fn solve_cp_lower_bound(&mut self, missing_progress: Progress, muscle_memory: u8, veneration: u8) -> (r: CP)
        requires
            old(self).wf(),
            cp_lower_bound_defined(
                old(self).settings,
                missing_progress.inner_value,
                muscle_memory,
                veneration,
            ),
        ensures
            final(self).wf(),
            final(self).settings == old(self).settings,
            r == cp_lower_bound_spec(
                old(self).settings,
                missing_progress.inner_value,
                muscle_memory,
                veneration,
            ),
    {
        let ghost settings = self.settings;
        let ghost missing = missing_progress.inner_value;
        let ghost target = doubling_exponent(settings, missing, muscle_memory, veneration, 1);
        proof {
            lemma_doubling_exponent(settings, missing, muscle_memory, veneration, 1);
            reveal_with_fuel(two_pow, 15);
            assert(two_pow(14) == 16384);
        }
        let mut base: CP = 1;
        let ghost mut e: nat = 0;
        loop
            invariant
                self.wf(),
                self.settings == settings,
                missing == missing_progress.inner_value,
                cp_lower_bound_defined(settings, missing, muscle_memory, veneration),
                1 <= target <= 14,
                e + 1 <= target,
                base == two_pow(e),
                doubling_exponent(settings, missing, muscle_memory, veneration, e + 1) == target,
                progress_bound(
                    settings,
                    ReducedState { cp: two_pow(target) as CP, muscle_memory, veneration },
                ) >= missing,
                two_pow(14) == 16384,
            ensures
                self.wf(),
                self.settings == settings,
                target == e + 1,
                base == two_pow(e),
                two_pow(14) == 16384,
            decreases 14 - e,
        {
            proof {
                lemma_two_pow_monotone(e + 1, 14);
            }
            assert(two_pow(e + 1) == 2 * two_pow(e));
            let bound = self.get_progress_upper_bound(2 * base, muscle_memory, veneration);
            if bound.inner_value >= missing_progress.inner_value {
                break ;
            }
            assert(e + 1 != target);
            base = base * 2;
            proof {
                e = e + 1;
            }
        }
        assert(target == e + 1);
        let mut result: CP = 0;
        proof {
            lemma_two_pow_monotone(e, 13);
        }
        while base != 0
            invariant
                self.wf(),
                self.settings == settings,
                missing == missing_progress.inner_value,
                0 <= base <= 8192,
                0 <= result,
                result + 2 * base <= 16384,
                base == 0 || exists|f: nat| base == two_pow(f),
                cp_search(settings, missing, muscle_memory, veneration, result as int, base as int)
                    == cp_search(settings, missing, muscle_memory, veneration, 0, two_pow(e) as int),
            decreases base,
        {
            let ghost old_result = result;
            let ghost old_base = base;
            let candidate: CP = result + base;
            let bound = self.get_progress_upper_bound(candidate, muscle_memory, veneration);
            assert(bound.inner_value == progress_bound(
                settings,
                ReducedState { cp: (old_result + old_base) as CP, muscle_memory, veneration },
            ));
            if bound.inner_value < missing_progress.inner_value {
                result = candidate;
            }
            proof {
                lemma_two_pow_half(base as int);
            }
            base = base / 2;
            assert(old_base > 0);
            assert(base as int == old_base / 2);
            assert(cp_search(settings, missing, muscle_memory, veneration, old_result as int, old_base as int)
                == cp_search(settings, missing, muscle_memory, veneration, if bound.inner_value < missing {
                old_result + old_base
            } else {
                old_result as int
            }, old_base / 2));
            assert(cp_search(settings, missing, muscle_memory, veneration, old_result as int, old_base as int)
                == cp_search(settings, missing, muscle_memory, veneration, result as int, base as int));
        }
        result + 1
    }

    fn get_bound(&mut self, state: ReducedState) -> (r: Progress)
        requires
            old(self).wf(),
        ensures
            final(self).wf(),
            final(self).settings == old(self).settings,
            r.inner_value == progress_bound(old(self).settings, state),
        decreases cp_measure(state.cp as int), PROGRESS_SEARCH_ITEMS + 2,
    {
        let key = progress_key_exec(&state);
        match fx_get(&self.progress_upper_bound, key) {
            Some(progress) => {
                return *progress;
            },
            None => {},
        }
        let result = self.solve_bound(state);
        let ghost old_memo = self.progress_upper_bound@;
        fx_insert(&mut self.progress_upper_bound, key, result);
        proof {
            assert forall|rs: ReducedState|
                #[trigger] self.progress_upper_bound@.contains_key(progress_key(rs)) implies self.progress_upper_bound@[progress_key(
                    rs,
                )].inner_value == progress_bound(self.settings, rs) by {
                if progress_key(rs) == key {
                    lemma_progress_key_injective(rs, state);
                } else {
                    assert(old_memo.contains_key(progress_key(rs)));
                }
            }
        }
        result
    }

    fn solve_bound(&mut self, state: ReducedState) -> (r: Progress)
        requires
            old(self).wf(),
        ensures
            final(self).wf(),
            final(self).settings == old(self).settings,
            r.inner_value == progress_bound(old(self).settings, state),
        decreases cp_measure(state.cp as int), PROGRESS_SEARCH_ITEMS + 1,
    {
        let ghost settings = self.settings;
        let mut best_progress = Progress::new(0);
        if state.cp < 0 {
            return best_progress;
        }
        let mut k: usize = 0;
        while k < PROGRESS_SEARCH_ITEMS
            invariant
                self.wf(),
                self.settings == settings,
                state.cp >= 0,
                k <= PROGRESS_SEARCH_ITEMS,
                best_progress.inner_value == progress_fold(settings, state, k as int),
            decreases PROGRESS_SEARCH_ITEMS - k,
        {
            proof {
                lemma_item_step(settings, state, k as int);
            }
            let sequence = progress_sequence_exec(k / 2);
            let mut full_state = State::InProgress(state.to_state());
            if k % 2 == 1 {
                full_state = apply_waste_not(full_state, sequence.len() as u8);
            }
            assert(full_state == item_start(state, k as int));
            let new_state = full_state.use_actions(sequence, Condition::Normal, &self.settings);
            if let State::InProgress(in_progress) = new_state {
                let action_progress = Progress::new(100_000).saturating_sub(
                    in_progress.missing_progress,
                );
                let child = ReducedState::from_state(&in_progress);
                let child_bound = self.get_bound(child);
                let total_progress = action_progress.saturating_add(child_bound);
                if best_progress.inner_value < total_progress.inner_value {
                    best_progress = total_progress;
                }
            }
            k = k + 1;
        }
        best_progress
    }
}

/// The doubling stops by 14 when some CP up to 2^14 reaches the progress, and where it stops
/// that CP reaches it.
proof fn lemma_doubling_exponent(
    settings: Settings,
    missing: u32,
    muscle_memory: u8,
    veneration: u8,
    from: nat,
)
    requires
        1 <= from <= 14,
        cp_lower_bound_defined(settings, missing, muscle_memory, veneration),
        forall|e: nat|
            1 <= e < from ==> #[trigger] progress_bound(
                settings,
                ReducedState { cp: two_pow(e) as CP, muscle_memory, veneration },
            ) < missing,
    ensures
        from <= doubling_exponent(settings, missing, muscle_memory, veneration, from) <= 14,
        progress_bound(
            settings,
            ReducedState {
                cp: two_pow(doubling_exponent(settings, missing, muscle_memory, veneration, from))
                    as CP,
                muscle_memory,
                veneration,
            },
        ) >= missing,
    decreases 14 - from,
{
    if progress_bound(
        settings,
        ReducedState { cp: two_pow(from) as CP, muscle_memory, veneration },
    ) < missing {
        if from == 14 {
            let e = choose|e: nat|
                1 <= e <= 14 && #[trigger] progress_bound(
                    settings,
                    ReducedState { cp: two_pow(e) as CP, muscle_memory, veneration },
                ) >= missing;
            assert(e < from + 1);
        } else {
            lemma_doubling_exponent(settings, missing, muscle_memory, veneration, from + 1);
        }
    }
}

proof fn lemma_two_pow_pos(e: nat)
    ensures
        two_pow(e) >= 1,
    decreases e,
{
    if e > 0 {
        lemma_two_pow_pos((e - 1) as nat);
    }
}

proof fn lemma_two_pow_monotone(a: nat, b: nat)
    requires
        a <= b,
    ensures
        1 <= two_pow(a) <= two_pow(b),
    decreases b,
{
    lemma_two_pow_pos(a);
    if a < b {
        lemma_two_pow_monotone(a, (b - 1) as nat);
        lemma_two_pow_pos((b - 1) as nat);
    }
}

proof fn lemma_two_pow_half(base: int)
    requires
        exists|f: nat| base == two_pow(f),
    ensures
        base / 2 == 0 || exists|f: nat| base / 2 == two_pow(f),
        base / 2 == 0 <==> base == 1,
{
    let f = choose|f: nat| base == two_pow(f);
    lemma_two_pow_monotone(0, f);
    if f > 0 {
        assert(base / 2 == two_pow((f - 1) as nat));
        lemma_two_pow_monotone(0, (f - 1) as nat);
    }
}

/// The bound of `cp` CP under the given effects.
pub open spec fn bound_at(settings: Settings, cp: int, muscle_memory: u8, veneration: u8) -> u32 {
    progress_bound(settings, ReducedState { cp: cp as CP, muscle_memory, veneration })
}

/// The halving search keeps a CP whose bound misses the progress (or 0) just below one whose
/// bound reaches it, and ends on such a pair one apart.
proof fn lemma_cp_search_crossing(
    settings: Settings,
    missing: u32,
    muscle_memory: u8,
    veneration: u8,
    result: int,
    base: int,
)
    requires
        result >= 0,
        base >= 0,
        base == 0 || exists|f: nat| base == two_pow(f),
        result + 2 * base <= 16384,
        result + 1 <= 16384,
        base >= 1 ==> bound_at(settings, result + 2 * base, muscle_memory, veneration) >= missing,
        base == 0 ==> bound_at(settings, result + 1, muscle_memory, veneration) >= missing,
        result == 0 || bound_at(settings, result, muscle_memory, veneration) < missing,
    ensures
        ({
            let c = cp_search(settings, missing, muscle_memory, veneration, result, base);
            &&& 0 <= c < 16384
            &&& bound_at(settings, c + 1, muscle_memory, veneration) >= missing
            &&& (c == 0 || bound_at(settings, c, muscle_memory, veneration) < missing)
        }),
    decreases base,
{
    if base > 0 {
        lemma_two_pow_half(base);
        let next = if bound_at(settings, result + base, muscle_memory, veneration) < missing {
            result + base
        } else {
            result
        };
        if base == 1 {
            assert(base / 2 == 0);
        } else {
            assert(2 * (base / 2) == base) by {
                let f = choose|f: nat| base == two_pow(f);
                assert(f > 0);
                assert(base == 2 * two_pow((f - 1) as nat));
            }
        }
        lemma_cp_search_crossing(settings, missing, muscle_memory, veneration, next, base / 2);
    }
}

/// The CP that the search finds is the least from 1 on whose bound reaches the missing
/// progress.
pub proof fn lemma_cp_lower_bound_least(
    settings: Settings,
    missing: u32,
    muscle_memory: u8,
    veneration: u8,
)
    requires
        cp_lower_bound_defined(settings, missing, muscle_memory, veneration),
    ensures
        ({
            let c = cp_lower_bound_spec(settings, missing, muscle_memory, veneration);
            &&& 1 <= c <= 16384
            &&& bound_at(settings, c, muscle_memory, veneration) >= missing
            &&& (c == 1 || bound_at(settings, c - 1, muscle_memory, veneration) < missing)
            &&& forall|x: int|
                1 <= x < c ==> #[trigger] bound_at(settings, x, muscle_memory, veneration) < missing
        }),
{
    lemma_doubling_exponent(settings, missing, muscle_memory, veneration, 1);
    let e = doubling_exponent(settings, missing, muscle_memory, veneration, 1);
    let base = two_pow((e - 1) as nat);
    assert(two_pow(e) == 2 * base);
    lemma_two_pow_monotone(e, 14);
    reveal_with_fuel(two_pow, 15);
    assert(two_pow(14) == 16384);
    lemma_two_pow_monotone(0, (e - 1) as nat);
    lemma_cp_search_crossing(settings, missing, muscle_memory, veneration, 0, base);
    let c = cp_lower_bound_spec(settings, missing, muscle_memory, veneration);
    assert forall|x: int| 1 <= x < c implies #[trigger] bound_at(settings, x, muscle_memory, veneration)
        < missing by {
        lemma_progress_bound_monotone(
            settings,
            ReducedState { cp: x as CP, muscle_memory, veneration },
            c - 1 - x,
        );
    }
}

/// An item of the search does the same from a state with more CP: where it leaves the craft
/// in progress, it leaves as much more CP.
proof fn lemma_item_cp_shift(settings: Settings, rs: ReducedState, k: int, d: int)
    requires
        rs.cp >= 0,
        d >= 0,
        rs.cp + d <= i16::MAX,
        0 <= k < PROGRESS_SEARCH_ITEMS,
        item_state(settings, rs, k) is InProgress,
    ensures
        item_state(settings, ReducedState { cp: (rs.cp + d) as CP, ..rs }, k) == raise_cp(
            item_state(settings, rs, k),
            d,
        ),
{
    let raised = ReducedState { cp: (rs.cp + d) as CP, ..rs };
    let seq = progress_sequence(k / 2);
    assert(seq.len() > 0);
    assert(forall|j: int| 0 <= j < seq.len() ==> #[trigger] seq[j] != Action::TricksOfTheTrade);
    let start = item_start(rs, k);
    if start is Invalid {
        assert(start.use_actions_spec(seq, Condition::Normal, settings) == State::Invalid);
    }
    assert(item_start(raised, k) == raise_cp(start, d)) by {
        assert(raised.to_state_spec() == (InProgress { cp: (rs.cp + d) as CP, ..rs.to_state_spec() }));
    }
    lemma_actions_cp_shift(start, seq, settings, d);
}

/// The progress bound never falls when there is more CP.
pub proof fn lemma_progress_bound_monotone(settings: Settings, rs: ReducedState, d: int)
    requires
        d >= 0,
        rs.cp + d <= i16::MAX,
    ensures
        progress_bound(settings, rs) <= progress_bound(
            settings,
            ReducedState { cp: (rs.cp + d) as CP, ..rs },
        ),
    decreases cp_measure(rs.cp as int), PROGRESS_SEARCH_ITEMS + 1,
{
    if rs.cp >= 0 {
        lemma_fold_monotone(settings, rs, d, PROGRESS_SEARCH_ITEMS as int);
    }
}

proof fn lemma_fold_monotone(settings: Settings, rs: ReducedState, d: int, n: int)
    requires
        rs.cp >= 0,
        d >= 0,
        rs.cp + d <= i16::MAX,
        0 <= n <= PROGRESS_SEARCH_ITEMS,
    ensures
        progress_fold(settings, rs, n) <= progress_fold(
            settings,
            ReducedState { cp: (rs.cp + d) as CP, ..rs },
            n,
        ),
    decreases cp_measure(rs.cp as int), n,
{
    let raised = ReducedState { cp: (rs.cp + d) as CP, ..rs };
    if n > 0 {
        lemma_fold_monotone(settings, rs, d, n - 1);
        lemma_item_step(settings, rs, n - 1);
        lemma_item_step(settings, raised, n - 1);
        if let State::InProgress(ip) = item_state(settings, rs, n - 1) {
            lemma_item_cp_shift(settings, rs, n - 1, d);
            let child = ReducedState::from_state_spec(ip);
            let ip2 = InProgress { cp: (ip.cp + d) as CP, ..ip };
            assert(item_state(settings, raised, n - 1) == State::InProgress(ip2));
            assert(ReducedState::from_state_spec(ip2) == ReducedState { cp: (child.cp + d) as CP, ..child });
            lemma_progress_bound_monotone(settings, child, d);
        }
    }
}

} // verus!
