use vstd::prelude::*;

use crate::game::actions::Action;
use crate::game::conditions::Condition;
use crate::game::settings::Settings;
use crate::game::state::{lemma_quality_fits, InProgress, State};

verus! {

/// Actions that restore CP or durability, which the relaxed searches leave out.
pub open spec fn is_restoring(a: Action) -> bool {
    a == Action::MasterMend || a == Action::Manipulation || a == Action::TricksOfTheTrade
}

/// A state of the relaxed searches: some CP, durability up to 100, at most ten inner quiet
/// stacks and no Manipulation running.
pub open spec fn is_relaxed(s: InProgress) -> bool {
    &&& s.cp >= 0
    &&& 0 < s.durability <= 100
    &&& s.effects.inner_quiet <= 10
    &&& s.effects.manipulation == 0
}

/// Under the normal condition every action makes less than 100,000 progress, costs at most
/// 20 durability, and costs some CP or at least 5 durability (unless it restores).
pub proof fn lemma_action_bounds(a: Action, s: InProgress)
    ensures
        0 <= a.progress_increase_spec(s.effects, Condition::Normal) < 100_000,
        0 <= a.durability_cost_spec(s.effects, Condition::Normal) <= 20,
        a.cp_cost_spec(Condition::Normal) >= 0,
        !is_restoring(a) ==> a.cp_cost_spec(Condition::Normal) >= 1 || a.durability_cost_spec(
            s.effects,
            Condition::Normal,
        ) >= 5,
{
}

/// One action from a relaxed state is safe, and what it leaves in progress is relaxed again,
/// with no more CP or durability than before.
pub proof fn lemma_relaxed_step(s: InProgress, a: Action, settings: Settings)
    requires
        is_relaxed(s),
        !is_restoring(a),
    ensures
        s.use_action_safe(a, Condition::Normal, settings),
        s.use_action_spec(a, Condition::Normal, settings) matches State::InProgress(n) ==> {
            &&& is_relaxed(n)
            &&& n.cp <= s.cp
            &&& n.durability <= s.durability
            &&& (n.cp < s.cp || n.durability <= s.durability - 5)
            &&& n.missing_progress.inner_value + 100_000 > s.missing_progress.inner_value
            &&& n.missing_progress.inner_value <= s.missing_progress.inner_value
            &&& n.missing_quality.inner_value <= s.missing_quality.inner_value
        },
        s.use_action_spec(a, Condition::Normal, settings) is Completed ==> s.missing_progress.inner_value
            < 100_000,
        s.use_action_spec(a, Condition::Normal, settings) is Failed ==> s.durability <= 20,
{
    lemma_quality_fits(a, s.effects, Condition::Normal);
    lemma_action_bounds(a, s);
}

/// A run of actions from a relaxed state is safe; what it leaves in progress is relaxed, with
/// no more CP or durability, and with less of one of them when the run is not empty.
pub proof fn lemma_relaxed_run(s: InProgress, actions: Seq<Action>, settings: Settings)
    requires
        is_relaxed(s),
        forall|k: int| 0 <= k < actions.len() ==> !is_restoring(#[trigger] actions[k]),
    ensures
        State::InProgress(s).use_actions_safe(actions, Condition::Normal, settings),
        State::InProgress(s).use_actions_spec(actions, Condition::Normal, settings) matches State::InProgress(n) ==> {
            &&& is_relaxed(n)
            &&& n.cp <= s.cp
            &&& n.durability <= s.durability
            &&& (actions.len() > 0 ==> n.cp < s.cp || n.durability <= s.durability - 5)
            &&& n.missing_progress.inner_value + 100_000 * actions.len() >= s.missing_progress.inner_value
            &&& n.missing_progress.inner_value <= s.missing_progress.inner_value
            &&& n.missing_quality.inner_value <= s.missing_quality.inner_value
        },
        State::InProgress(s).use_actions_spec(actions, Condition::Normal, settings) is Completed
            ==> s.missing_progress.inner_value < 100_000 * actions.len(),
        State::InProgress(s).use_actions_spec(actions, Condition::Normal, settings) is Failed
            ==> s.durability <= 20 * actions.len(),
    decreases actions.len(),
{
    if actions.len() > 0 {
        let a = actions[0];
        assert(!is_restoring(actions[0]));
        lemma_relaxed_step(s, a, settings);
        let rest = actions.drop_first();
        let first = s.use_action_spec(a, Condition::Normal, settings);
        assert(State::InProgress(s).use_actions_spec(actions, Condition::Normal, settings)
            == first.use_actions_spec(rest, Condition::Normal, settings));
        assert(State::InProgress(s).use_actions_safe(actions, Condition::Normal, settings)
            == (s.use_action_safe(a, Condition::Normal, settings) && first.use_actions_safe(
            rest,
            Condition::Normal,
            settings,
        )));
        match first {
            State::InProgress(n) => {
                assert forall|k: int| 0 <= k < rest.len() implies !is_restoring(#[trigger] rest[k]) by {
                    assert(rest[k] == actions[k + 1]);
                }
                lemma_relaxed_run(n, rest, settings);
            },
            _ => {
                if rest.len() > 0 {
                    assert(first.use_actions_spec(rest, Condition::Normal, settings) == State::Invalid);
                } else {
                    assert(first.use_actions_spec(rest, Condition::Normal, settings) == first);
                }
                assert(first.use_actions_safe(rest, Condition::Normal, settings));
            },
        }
    }
}

/// `st` with `d` more CP, when it is in progress.
pub open spec fn raise_cp(st: State, d: int) -> State {
    match st {
        State::InProgress(s) => State::InProgress(InProgress { cp: (s.cp + d) as i16, ..s }),
        _ => st,
    }
}

/// An action other than Tricks of the Trade does the same with more CP: where it goes
/// through, the CP it leaves is raised by as much.
pub proof fn lemma_action_cp_shift(s: InProgress, a: Action, settings: Settings, d: int)
    requires
        a != Action::TricksOfTheTrade,
        d >= 0,
        0 <= s.cp,
        s.cp + d <= i16::MAX,
        (s.use_action_spec(a, Condition::Normal, settings) !is Invalid),
    ensures
        (InProgress { cp: (s.cp + d) as i16, ..s }).use_action_spec(a, Condition::Normal, settings)
            == raise_cp(s.use_action_spec(a, Condition::Normal, settings), d),
{
}

/// A run of actions without Tricks of the Trade does the same with more CP.
pub proof fn lemma_actions_cp_shift(st: State, actions: Seq<Action>, settings: Settings, d: int)
    requires
        forall|k: int| 0 <= k < actions.len() ==> #[trigger] actions[k] != Action::TricksOfTheTrade,
        d >= 0,
        (st matches State::InProgress(s) ==> 0 <= s.cp && s.cp + d <= i16::MAX),
        (st.use_actions_spec(actions, Condition::Normal, settings) !is Invalid),
    ensures
        raise_cp(st, d).use_actions_spec(actions, Condition::Normal, settings) == raise_cp(
            st.use_actions_spec(actions, Condition::Normal, settings),
            d,
        ),
    decreases actions.len(),
{
    if actions.len() > 0 {
        let rest = actions.drop_first();
        if let State::InProgress(s) = st {
            let a = actions[0];
            let n1 = s.use_action_spec(a, Condition::Normal, settings);
            assert(st.use_actions_spec(actions, Condition::Normal, settings) == n1.use_actions_spec(
                rest,
                Condition::Normal,
                settings,
            ));
            if n1 is Invalid {
                if rest.len() > 0 {
                    assert(n1.use_actions_spec(rest, Condition::Normal, settings) == State::Invalid);
                }
            } else {
                lemma_action_cp_shift(s, a, settings, d);
                assert(raise_cp(st, d).use_actions_spec(actions, Condition::Normal, settings)
                    == raise_cp(n1, d).use_actions_spec(rest, Condition::Normal, settings));
                assert forall|k: int| 0 <= k < rest.len() implies #[trigger] rest[k]
                    != Action::TricksOfTheTrade by {
                    assert(rest[k] == actions[k + 1]);
                }
                if let State::InProgress(m) = n1 {
                    lemma_action_bounds(a, s);
                    assert(m.cp <= s.cp);
                } else {
                    if rest.len() > 0 {
                        assert(n1.use_actions_spec(rest, Condition::Normal, settings) == State::Invalid);
                    }
                }
                lemma_actions_cp_shift(n1, rest, settings, d);
            }
        }
    }
}

} // verus!
