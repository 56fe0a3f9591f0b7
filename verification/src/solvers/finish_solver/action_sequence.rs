use vstd::prelude::*;

use crate::game::actions::Action;
use crate::game::conditions::Condition;
use crate::game::settings::Settings;
use crate::game::state::State;
use crate::game::units::CP;

verus! {

/// The steps that the finishing search tries: each is one action or a short combo.
#[derive(Debug, Copy, Clone, PartialEq, Eq, Structural)]
pub enum ActionSequence {
    BasicSynthesis,
    MasterMend,
    CarefulSynthesis,
    Groundwork,
    FocusedSynthesisCombo,
    Manipulation,
    WasteNot,
    WasteNot2,
    Veneration,
}

/// The sum of the base CP costs of `actions`.
pub open spec fn base_cp_sum(actions: Seq<Action>) -> int
    decreases actions.len(),
{
    if actions.len() == 0 {
        0
    } else {
        base_cp_sum(actions.drop_last()) + actions.last().base_cp_cost_spec()
    }
}

impl ActionSequence {
    /// Every step, in the order in which the search tries them.
    pub open spec fn all_spec() -> Seq<ActionSequence> {
        seq![
            ActionSequence::BasicSynthesis,
            ActionSequence::MasterMend,
            ActionSequence::CarefulSynthesis,
            ActionSequence::Groundwork,
            ActionSequence::FocusedSynthesisCombo,
            ActionSequence::Manipulation,
            ActionSequence::WasteNot,
            ActionSequence::WasteNot2,
            ActionSequence::Veneration,
        ]
    }

    pub fn all() -> (r: Vec<ActionSequence>)
        ensures
            r@ == Self::all_spec(),
    {
        let r = vec![
            ActionSequence::BasicSynthesis,
            ActionSequence::MasterMend,
            ActionSequence::CarefulSynthesis,
            ActionSequence::Groundwork,
            ActionSequence::FocusedSynthesisCombo,
            ActionSequence::Manipulation,
            ActionSequence::WasteNot,
            ActionSequence::WasteNot2,
            ActionSequence::Veneration,
        ];
        assert(r@ =~= Self::all_spec());
        r
    }

    /// The actions of the step.
    pub open spec fn actions_spec(self) -> Seq<Action> {
        match self {
            ActionSequence::CarefulSynthesis => seq![Action::CarefulSynthesis],
            ActionSequence::Groundwork => seq![Action::Groundwork],
            ActionSequence::FocusedSynthesisCombo => seq![Action::Observe, Action::FocusedSynthesis],
            ActionSequence::MasterMend => seq![Action::MasterMend],
            ActionSequence::Manipulation => seq![Action::Manipulation],
            ActionSequence::WasteNot => seq![Action::WasteNot],
            ActionSequence::WasteNot2 => seq![Action::WasteNot2],
            ActionSequence::Veneration => seq![Action::Veneration],
            ActionSequence::BasicSynthesis => seq![Action::BasicSynthesis],
        }
    }

    pub fn actions(&self) -> (r: &[Action])
        ensures
            r@ == self.actions_spec(),
    {
        let r: &[Action] = match *self {
            ActionSequence::CarefulSynthesis => &[Action::CarefulSynthesis],
            ActionSequence::Groundwork => &[Action::Groundwork],
            ActionSequence::FocusedSynthesisCombo => &[Action::Observe, Action::FocusedSynthesis],
            ActionSequence::MasterMend => &[Action::MasterMend],
            ActionSequence::Manipulation => &[Action::Manipulation],
            ActionSequence::WasteNot => &[Action::WasteNot],
            ActionSequence::WasteNot2 => &[Action::WasteNot2],
            ActionSequence::Veneration => &[Action::Veneration],
            ActionSequence::BasicSynthesis => &[Action::BasicSynthesis],
        };
        assert(r@ =~= self.actions_spec());
        r
    }
    /// The sum of the base CP costs of the step's actions.
    pub fn base_cp_cost(&self) -> (r: CP)
        ensures
            r == base_cp_sum(self.actions_spec()),
    {
        let actions = self.actions();
        let mut result: CP = 0;
        let mut i: usize = 0;
        while i < actions.len()
            invariant
                i <= actions@.len(),
                actions@ == self.actions_spec(),
                actions@.len() <= 2,
                result == base_cp_sum(actions@.take(i as int)),
                0 <= result <= 98 * i,
            decreases actions@.len() - i,
        {
            assert(actions@.take(i + 1).drop_last() =~= actions@.take(i as int));
            result = result + actions[i].base_cp_cost();
            i = i + 1;
        }
        assert(actions@.take(i as int) =~= actions@);
        result
    }

    /// The state after the step's actions, all in the normal condition.
    pub fn apply(&self, state: State, settings: &Settings) -> (r: State)
        requires
            state.use_actions_safe(self.actions_spec(), Condition::Normal, *settings),
        ensures
            r == state.use_actions_spec(self.actions_spec(), Condition::Normal, *settings),
    {
        state.use_actions(self.actions(), Condition::Normal, settings)
    }
}

/// The actions of each finishing step: a single progress or durability action, or Observe
/// before Focused Synthesis.
pub proof fn lemma_step_actions(q: ActionSequence)
    ensures
        q == ActionSequence::CarefulSynthesis ==> q.actions_spec() == seq![Action::CarefulSynthesis],
        q == ActionSequence::Groundwork ==> q.actions_spec() == seq![Action::Groundwork],
        q == ActionSequence::FocusedSynthesisCombo ==> q.actions_spec() == seq![Action::Observe, Action::FocusedSynthesis],
        q == ActionSequence::MasterMend ==> q.actions_spec() == seq![Action::MasterMend],
        q == ActionSequence::Manipulation ==> q.actions_spec() == seq![Action::Manipulation],
        q == ActionSequence::WasteNot ==> q.actions_spec() == seq![Action::WasteNot],
        q == ActionSequence::WasteNot2 ==> q.actions_spec() == seq![Action::WasteNot2],
        q == ActionSequence::Veneration ==> q.actions_spec() == seq![Action::Veneration],
        q == ActionSequence::BasicSynthesis ==> q.actions_spec() == seq![Action::BasicSynthesis],
{
}

} // verus!
