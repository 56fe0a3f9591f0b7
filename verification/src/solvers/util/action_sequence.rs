use vstd::prelude::*;

use crate::game::actions::Action;
use crate::game::conditions::Condition;
use crate::game::settings::Settings;
use crate::game::state::State;
use crate::solvers::finish_solver::action_sequence::base_cp_sum;

verus! {

/// The steps of a search over whole openers, combos and finishers.
#[derive(Debug, Copy, Clone, PartialEq, Eq, Structural)]
pub enum ActionSequence {
    MuscleMemoryOpener,
    ReflectOpener,
    BasicSynthesis,
    MasterMend,
    CarefulSynthesis,
    Groundwork,
    PreparatoryTouch,
    PrudentTouch,
    TrainedFinesse,
    AdvancedTouchCombo,
    FocusedSynthesisCombo,
    FocusedTouchCombo,
    Manipulation,
    WasteNot,
    WasteNot2,
    Innovation,
    Veneration,
    ByresgotsBlessingCombo,
    ByregotsBlessing,
}

impl ActionSequence {
    /// Every step, in the order of declaration.
    pub open spec fn all_spec() -> Seq<ActionSequence> {
        seq![
            ActionSequence::MuscleMemoryOpener,
            ActionSequence::ReflectOpener,
            ActionSequence::BasicSynthesis,
            ActionSequence::MasterMend,
            ActionSequence::CarefulSynthesis,
            ActionSequence::Groundwork,
            ActionSequence::PreparatoryTouch,
            ActionSequence::PrudentTouch,
            ActionSequence::TrainedFinesse,
            ActionSequence::AdvancedTouchCombo,
            ActionSequence::FocusedSynthesisCombo,
            ActionSequence::FocusedTouchCombo,
            ActionSequence::Manipulation,
            ActionSequence::WasteNot,
            ActionSequence::WasteNot2,
            ActionSequence::Innovation,
            ActionSequence::Veneration,
            ActionSequence::ByresgotsBlessingCombo,
            ActionSequence::ByregotsBlessing,
        ]
    }

    pub fn all() -> (r: Vec<ActionSequence>)
        ensures
            r@ == Self::all_spec(),
    {
        let r = vec![
            ActionSequence::MuscleMemoryOpener,
            ActionSequence::ReflectOpener,
            ActionSequence::BasicSynthesis,
            ActionSequence::MasterMend,
            ActionSequence::CarefulSynthesis,
            ActionSequence::Groundwork,
            ActionSequence::PreparatoryTouch,
            ActionSequence::PrudentTouch,
            ActionSequence::TrainedFinesse,
            ActionSequence::AdvancedTouchCombo,
            ActionSequence::FocusedSynthesisCombo,
            ActionSequence::FocusedTouchCombo,
            ActionSequence::Manipulation,
            ActionSequence::WasteNot,
            ActionSequence::WasteNot2,
            ActionSequence::Innovation,
            ActionSequence::Veneration,
            ActionSequence::ByresgotsBlessingCombo,
            ActionSequence::ByregotsBlessing,
        ];
        assert(r@ =~= Self::all_spec());
        r
    }

    /// The actions of the step.
    pub open spec fn actions_spec(self) -> Seq<Action> {
        match self {
            ActionSequence::MuscleMemoryOpener => seq![Action::MuscleMemory],
            ActionSequence::ReflectOpener => seq![Action::Reflect],
            ActionSequence::BasicSynthesis => seq![Action::BasicSynthesis],
            ActionSequence::MasterMend => seq![Action::MasterMend],
            ActionSequence::CarefulSynthesis => seq![Action::CarefulSynthesis],
            ActionSequence::Groundwork => seq![Action::Groundwork],
            ActionSequence::PreparatoryTouch => seq![Action::PreparatoryTouch],
            ActionSequence::PrudentTouch => seq![Action::PrudentTouch],
            ActionSequence::TrainedFinesse => seq![Action::TrainedFinesse],
            ActionSequence::AdvancedTouchCombo => seq![Action::BasicTouch, Action::StandardTouch, Action::AdvancedTouch],
            ActionSequence::FocusedSynthesisCombo => seq![Action::Observe, Action::FocusedSynthesis],
            ActionSequence::FocusedTouchCombo => seq![Action::Observe, Action::FocusedTouch],
            ActionSequence::Manipulation => seq![Action::Manipulation],
            ActionSequence::WasteNot => seq![Action::WasteNot],
            ActionSequence::WasteNot2 => seq![Action::WasteNot2],
            ActionSequence::Innovation => seq![Action::Innovation],
            ActionSequence::Veneration => seq![Action::Veneration],
            ActionSequence::ByresgotsBlessingCombo => seq![Action::GreatStrides, Action::ByregotsBlessing],
            ActionSequence::ByregotsBlessing => seq![Action::ByregotsBlessing],
        }
    }

    pub fn actions(&self) -> (r: &'static [Action])
        ensures
            r@ == self.actions_spec(),
    {
        let r: &'static [Action] = match *self {
            ActionSequence::MuscleMemoryOpener => &[Action::MuscleMemory],
            ActionSequence::ReflectOpener => &[Action::Reflect],
            ActionSequence::BasicSynthesis => &[Action::BasicSynthesis],
            ActionSequence::MasterMend => &[Action::MasterMend],
            ActionSequence::CarefulSynthesis => &[Action::CarefulSynthesis],
            ActionSequence::Groundwork => &[Action::Groundwork],
            ActionSequence::PreparatoryTouch => &[Action::PreparatoryTouch],
            ActionSequence::PrudentTouch => &[Action::PrudentTouch],
            ActionSequence::TrainedFinesse => &[Action::TrainedFinesse],
            ActionSequence::AdvancedTouchCombo => &[Action::BasicTouch, Action::StandardTouch, Action::AdvancedTouch],
            ActionSequence::FocusedSynthesisCombo => &[Action::Observe, Action::FocusedSynthesis],
            ActionSequence::FocusedTouchCombo => &[Action::Observe, Action::FocusedTouch],
            ActionSequence::Manipulation => &[Action::Manipulation],
            ActionSequence::WasteNot => &[Action::WasteNot],
            ActionSequence::WasteNot2 => &[Action::WasteNot2],
            ActionSequence::Innovation => &[Action::Innovation],
            ActionSequence::Veneration => &[Action::Veneration],
            ActionSequence::ByresgotsBlessingCombo => &[Action::GreatStrides, Action::ByregotsBlessing],
            ActionSequence::ByregotsBlessing => &[Action::ByregotsBlessing],
        };
        assert(r@ =~= self.actions_spec());
        r
    }

    /// The sum of the base CP costs of the step's actions.
    pub fn base_cp_cost(&self) -> (r: i32)
        ensures
            r == base_cp_sum(self.actions_spec()),
    {
        let actions = self.actions();
        let mut result: i32 = 0;
        let mut i: usize = 0;
        while i < actions.len()
            invariant
                i <= actions@.len(),
                actions@ == self.actions_spec(),
                actions@.len() <= 3,
                result == base_cp_sum(actions@.take(i as int)),
                0 <= result <= 98 * i,
            decreases actions@.len() - i,
        {
            assert(actions@.take(i + 1).drop_last() =~= actions@.take(i as int));
            result = result + actions[i].base_cp_cost() as i32;
            i = i + 1;
        }
        assert(actions@.take(i as int) =~= actions@);
        result
    }

    /// The state after the step's actions, all in the normal condition.
    pub fn apply(&self, state: State, settings: &Settings) -> (r: State)
        requires
            state.use_actions_safe(self.actions_spec(), Condition::Normal, *settings),
        ensures
            r == state.use_actions_spec(self.actions_spec(), Condition::Normal, *settings),
    {
        state.use_actions(self.actions(), Condition::Normal, settings)
    }
}

/// The actions of each step: an opener, a single action, or a combo (Basic, Standard and
/// Advanced Touch; Observe before a Focused action; Great Strides before Byregot's Blessing).
pub proof fn lemma_step_actions(q: ActionSequence)
    ensures
        q == ActionSequence::MuscleMemoryOpener ==> q.actions_spec() == seq![Action::MuscleMemory],
        q == ActionSequence::ReflectOpener ==> q.actions_spec() == seq![Action::Reflect],
        q == ActionSequence::BasicSynthesis ==> q.actions_spec() == seq![Action::BasicSynthesis],
        q == ActionSequence::MasterMend ==> q.actions_spec() == seq![Action::MasterMend],
        q == ActionSequence::CarefulSynthesis ==> q.actions_spec() == seq![Action::CarefulSynthesis],
        q == ActionSequence::Groundwork ==> q.actions_spec() == seq![Action::Groundwork],
        q == ActionSequence::PreparatoryTouch ==> q.actions_spec() == seq![Action::PreparatoryTouch],
        q == ActionSequence::PrudentTouch ==> q.actions_spec() == seq![Action::PrudentTouch],
        q == ActionSequence::TrainedFinesse ==> q.actions_spec() == seq![Action::TrainedFinesse],
        q == ActionSequence::AdvancedTouchCombo ==> q.actions_spec() == seq![Action::BasicTouch, Action::StandardTouch, Action::AdvancedTouch],
        q == ActionSequence::FocusedSynthesisCombo ==> q.actions_spec() == seq![Action::Observe, Action::FocusedSynthesis],
        q == ActionSequence::FocusedTouchCombo ==> q.actions_spec() == seq![Action::Observe, Action::FocusedTouch],
        q == ActionSequence::Manipulation ==> q.actions_spec() == seq![Action::Manipulation],
        q == ActionSequence::WasteNot ==> q.actions_spec() == seq![Action::WasteNot],
        q == ActionSequence::WasteNot2 ==> q.actions_spec() == seq![Action::WasteNot2],
        q == ActionSequence::Innovation ==> q.actions_spec() == seq![Action::Innovation],
        q == ActionSequence::Veneration ==> q.actions_spec() == seq![Action::Veneration],
        q == ActionSequence::ByresgotsBlessingCombo ==> q.actions_spec() == seq![Action::GreatStrides, Action::ByregotsBlessing],
        q == ActionSequence::ByregotsBlessing ==> q.actions_spec() == seq![Action::ByregotsBlessing],
{
}

} // verus!
