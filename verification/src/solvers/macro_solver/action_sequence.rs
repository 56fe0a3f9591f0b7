use vstd::prelude::*;

use crate::game::actions::{Action, ComboAction};
use crate::game::conditions::Condition;
use crate::game::settings::Settings;
use crate::game::state::{InProgress, State};

verus! {

/// The steps of the macro search: single actions and the combos that are worth trying.
#[derive(Debug, Copy, Clone, PartialEq, Eq, Structural)]
pub enum ActionSequence {
    MuscleMemory,
    Reflect,
    CarefulSynthesis,
    Groundwork,
    PreparatoryTouch,
    PrudentTouch,
    TrainedFinesse,
    AdvancedTouchCombo,
    FocusedSynthesisCombo,
    FocusedTouchCombo,
    Manipulation,
    WasteNot,
    WasteNot2,
    Innovation,
    Veneration,
    GreatStrides,
    ByregotsBlessing,
}

impl ActionSequence {
    /// Every step, in the order of declaration.
    pub open spec fn all_spec() -> Seq<ActionSequence> {
        seq![
            ActionSequence::MuscleMemory,
            ActionSequence::Reflect,
            ActionSequence::CarefulSynthesis,
            ActionSequence::Groundwork,
            ActionSequence::PreparatoryTouch,
            ActionSequence::PrudentTouch,
            ActionSequence::TrainedFinesse,
            ActionSequence::AdvancedTouchCombo,
            ActionSequence::FocusedSynthesisCombo,
            ActionSequence::FocusedTouchCombo,
            ActionSequence::Manipulation,
            ActionSequence::WasteNot,
            ActionSequence::WasteNot2,
            ActionSequence::Innovation,
            ActionSequence::Veneration,
            ActionSequence::GreatStrides,
            ActionSequence::ByregotsBlessing,
        ]
    }

    pub fn all() -> (r: Vec<ActionSequence>)
        ensures
            r@ == Self::all_spec(),
    {
        let r = vec![
            ActionSequence::MuscleMemory,
            ActionSequence::Reflect,
            ActionSequence::CarefulSynthesis,
            ActionSequence::Groundwork,
            ActionSequence::PreparatoryTouch,
            ActionSequence::PrudentTouch,
            ActionSequence::TrainedFinesse,
            ActionSequence::AdvancedTouchCombo,
            ActionSequence::FocusedSynthesisCombo,
            ActionSequence::FocusedTouchCombo,
            ActionSequence::Manipulation,
            ActionSequence::WasteNot,
            ActionSequence::WasteNot2,
            ActionSequence::Innovation,
            ActionSequence::Veneration,
            ActionSequence::GreatStrides,
            ActionSequence::ByregotsBlessing,
        ];
        assert(r@ =~= Self::all_spec());
        r
    }

    /// The actions of the step.
    pub open spec fn actions_spec(self) -> Seq<Action> {
        match self {
            ActionSequence::MuscleMemory => seq![Action::MuscleMemory],
            ActionSequence::Reflect => seq![Action::Reflect],
            ActionSequence::CarefulSynthesis => seq![Action::CarefulSynthesis],
            ActionSequence::Groundwork => seq![Action::Groundwork],
            ActionSequence::PreparatoryTouch => seq![Action::PreparatoryTouch],
            ActionSequence::PrudentTouch => seq![Action::PrudentTouch],
            ActionSequence::TrainedFinesse => seq![Action::TrainedFinesse],
            ActionSequence::AdvancedTouchCombo => seq![Action::BasicTouch, Action::StandardTouch, Action::AdvancedTouch],
            ActionSequence::FocusedSynthesisCombo => seq![Action::Observe, Action::FocusedSynthesis],
            ActionSequence::FocusedTouchCombo => seq![Action::Observe, Action::FocusedTouch],
            ActionSequence::Manipulation => seq![Action::Manipulation],
            ActionSequence::WasteNot => seq![Action::WasteNot],
            ActionSequence::WasteNot2 => seq![Action::WasteNot2],
            ActionSequence::Innovation => seq![Action::Innovation],
            ActionSequence::Veneration => seq![Action::Veneration],
            ActionSequence::GreatStrides => seq![Action::GreatStrides],
            ActionSequence::ByregotsBlessing => seq![Action::ByregotsBlessing],
        }
    }

    pub fn actions(self) -> (r: &'static [Action])
        ensures
            r@ == self.actions_spec(),
    {
        let r: &'static [Action] = match self {
            ActionSequence::MuscleMemory => &[Action::MuscleMemory],
            ActionSequence::Reflect => &[Action::Reflect],
            ActionSequence::CarefulSynthesis => &[Action::CarefulSynthesis],
            ActionSequence::Groundwork => &[Action::Groundwork],
            ActionSequence::PreparatoryTouch => &[Action::PreparatoryTouch],
            ActionSequence::PrudentTouch => &[Action::PrudentTouch],
            ActionSequence::TrainedFinesse => &[Action::TrainedFinesse],
            ActionSequence::AdvancedTouchCombo => &[Action::BasicTouch, Action::StandardTouch, Action::AdvancedTouch],
            ActionSequence::FocusedSynthesisCombo => &[Action::Observe, Action::FocusedSynthesis],
            ActionSequence::FocusedTouchCombo => &[Action::Observe, Action::FocusedTouch],
            ActionSequence::Manipulation => &[Action::Manipulation],
            ActionSequence::WasteNot => &[Action::WasteNot],
            ActionSequence::WasteNot2 => &[Action::WasteNot2],
            ActionSequence::Innovation => &[Action::Innovation],
            ActionSequence::Veneration => &[Action::Veneration],
            ActionSequence::GreatStrides => &[Action::GreatStrides],
            ActionSequence::ByregotsBlessing => &[Action::ByregotsBlessing],
        };
        assert(r@ =~= self.actions_spec());
        r
    }

    /// The state after the step's actions, all in the normal condition.
    pub fn apply(self, state: State, settings: &Settings) -> (r: State)
        requires
            state.use_actions_safe(self.actions_spec(), Condition::Normal, *settings),
        ensures
            r == state.use_actions_spec(self.actions_spec(), Condition::Normal, *settings),
    {
        state.use_actions(self.actions(), Condition::Normal, settings)
    }

    /// Whether the search tries the step from `state`: at the start only the openers; after
    /// Byregot's Blessing (inner quiet spent on existing quality) nothing; otherwise progress
    /// steps while Muscle Memory or Veneration last, quality steps while neither does, and the
    /// buffs only when they are not already running.
    pub open spec fn should_use_spec(self, state: InProgress, settings: Settings) -> bool {
        let e = state.effects;
        let use_progress_increase = e.muscle_memory != 0 || e.veneration != 0;
        let use_quality_increase = e.muscle_memory == 0 && e.veneration <= 1;
        if state.combo == Some(ComboAction::SynthesisBegin) {
            self == ActionSequence::MuscleMemory || self == ActionSequence::Reflect
        } else if e.inner_quiet == 0 && state.missing_quality.inner_value
            != settings.max_quality.inner_value {
            false
        } else {
            match self {
                ActionSequence::MuscleMemory => false,
                ActionSequence::Reflect => false,
                ActionSequence::CarefulSynthesis => use_progress_increase && e.muscle_memory == 0,
                ActionSequence::Groundwork => use_progress_increase,
                ActionSequence::PreparatoryTouch => use_quality_increase && e.waste_not != 0,
                ActionSequence::PrudentTouch => e.great_strides == 0,
                ActionSequence::TrainedFinesse => e.inner_quiet == 10 && e.great_strides == 0,
                ActionSequence::AdvancedTouchCombo => use_quality_increase && (e.innovation >= 3
                    || e.innovation == 0) && e.great_strides == 0,
                ActionSequence::FocusedSynthesisCombo => use_progress_increase && e.muscle_memory
                    == 0 && (e.veneration >= 2 || e.veneration == 0),
                ActionSequence::FocusedTouchCombo => use_quality_increase && (e.innovation >= 2
                    || e.innovation == 0),
                ActionSequence::Manipulation => e.manipulation == 0 && e.waste_not == 0,
                ActionSequence::WasteNot => e.waste_not == 0 && e.inner_quiet <= 1,
                ActionSequence::WasteNot2 => e.waste_not == 0 && e.inner_quiet <= 1,
                ActionSequence::Innovation => use_quality_increase && e.innovation == 0,
                ActionSequence::Veneration => e.muscle_memory != 0 && e.veneration == 0,
                ActionSequence::GreatStrides => e.inner_quiet >= 6 && e.great_strides == 0,
                ActionSequence::ByregotsBlessing => e.inner_quiet >= 4,
            }
        }
    }

    pub fn should_use(self, state: &InProgress, settings: &Settings) -> (r: bool)
        ensures
            r == self.should_use_spec(*state, *settings),
    {
        if let Some(ComboAction::SynthesisBegin) = state.combo {
            return matches!(self, ActionSequence::MuscleMemory | ActionSequence::Reflect);
        }
        if state.effects.inner_quiet == 0 && state.missing_quality.inner_value
            != settings.max_quality.inner_value {
            return false;  // nothing after Byregot's Blessing
        }
        let e = state.effects;
        let use_progress_increase: bool = e.muscle_memory != 0 || e.veneration != 0;
        let use_quality_increase: bool = e.muscle_memory == 0 && e.veneration <= 1;
        match self {
            ActionSequence::MuscleMemory => false,
            ActionSequence::Reflect => false,
            ActionSequence::CarefulSynthesis => use_progress_increase && e.muscle_memory == 0,
            ActionSequence::Groundwork => use_progress_increase,
            ActionSequence::PreparatoryTouch => use_quality_increase && e.waste_not != 0,
            ActionSequence::PrudentTouch => e.great_strides == 0,
            ActionSequence::TrainedFinesse => e.inner_quiet == 10 && e.great_strides == 0,
            ActionSequence::AdvancedTouchCombo => use_quality_increase && (e.innovation >= 3
                || e.innovation == 0) && e.great_strides == 0,
            ActionSequence::FocusedSynthesisCombo => use_progress_increase && e.muscle_memory == 0
                && (e.veneration >= 2 || e.veneration == 0),
            ActionSequence::FocusedTouchCombo => use_quality_increase && (e.innovation >= 2
                || e.innovation == 0),
            ActionSequence::Manipulation => e.manipulation == 0 && e.waste_not == 0,
            ActionSequence::WasteNot => e.waste_not == 0 && e.inner_quiet <= 1,
            ActionSequence::WasteNot2 => e.waste_not == 0 && e.inner_quiet <= 1,
            ActionSequence::Innovation => use_quality_increase && e.innovation == 0,
            ActionSequence::Veneration => e.muscle_memory != 0 && e.veneration == 0,
            ActionSequence::GreatStrides => e.inner_quiet >= 6 && e.great_strides == 0,
            ActionSequence::ByregotsBlessing => e.inner_quiet >= 4,
        }
    }
}

/// A state from which the search tries the ordinary steps: past the opener, and not after
/// Byregot's Blessing (no inner quiet left although quality was gained).
pub open spec fn in_midcraft(s: InProgress, settings: Settings) -> bool {
    &&& s.combo != Some(ComboAction::SynthesisBegin)
    &&& !(s.effects.inner_quiet == 0 && s.missing_quality != settings.max_quality)
}

/// The search's rules for the steps it tries. At the opener it tries Muscle Memory and Reflect
/// and nothing else; after Byregot's Blessing nothing; past the opener it tries Byregot's
/// Blessing exactly when 4 or more inner quiet stacks are there to spend. In mid-craft,
/// quality steps wait while Muscle Memory runs or Veneration has more than one step left;
/// progress steps other than Groundwork wait for Veneration (Focused Synthesis for two steps
/// of it) while Muscle Memory is out; buffs are not cast again while they run; Great Strides
/// needs 6 stacks and Trained Finesse 10; Waste Not waits while stacks build (2 or more).
pub proof fn lemma_step_rules(s: InProgress, settings: Settings)
    ensures
        s.combo == Some(ComboAction::SynthesisBegin) ==> forall|q: ActionSequence|
            #[trigger] q.should_use_spec(s, settings) <==> (q == ActionSequence::MuscleMemory || q
                == ActionSequence::Reflect),
        s.combo != Some(ComboAction::SynthesisBegin) && s.effects.inner_quiet == 0
            && s.missing_quality != settings.max_quality ==> forall|q: ActionSequence|
            !(#[trigger] q.should_use_spec(s, settings)),
        s.combo != Some(ComboAction::SynthesisBegin) ==> (ActionSequence::ByregotsBlessing.should_use_spec(
            s,
            settings,
        ) <==> s.effects.inner_quiet >= 4),
        s.combo != Some(ComboAction::SynthesisBegin) ==> !ActionSequence::MuscleMemory.should_use_spec(
            s,
            settings,
        ) && !ActionSequence::Reflect.should_use_spec(s, settings),
        in_midcraft(s, settings) ==> (ActionSequence::GreatStrides.should_use_spec(s, settings) <==> (
        s.effects.inner_quiet >= 6 && s.effects.great_strides == 0)),
        in_midcraft(s, settings) ==> (ActionSequence::TrainedFinesse.should_use_spec(s, settings) <==> (
        s.effects.inner_quiet == 10 && s.effects.great_strides == 0)),
        in_midcraft(s, settings) ==> (ActionSequence::PrudentTouch.should_use_spec(s, settings) <==> s.effects.great_strides
            == 0),
        in_midcraft(s, settings) ==> (ActionSequence::WasteNot.should_use_spec(s, settings) <==> (
        s.effects.waste_not == 0 && s.effects.inner_quiet <= 1)),
        in_midcraft(s, settings) ==> (ActionSequence::WasteNot2.should_use_spec(s, settings) <==> (
        s.effects.waste_not == 0 && s.effects.inner_quiet <= 1)),
        in_midcraft(s, settings) ==> (ActionSequence::Manipulation.should_use_spec(s, settings) <==> (
        s.effects.manipulation == 0 && s.effects.waste_not == 0)),
        in_midcraft(s, settings) ==> (ActionSequence::Veneration.should_use_spec(s, settings) <==> (
        s.effects.muscle_memory != 0 && s.effects.veneration == 0)),
        in_midcraft(s, settings) ==> (ActionSequence::Innovation.should_use_spec(s, settings) <==> (
        s.effects.muscle_memory == 0 && s.effects.veneration <= 1 && s.effects.innovation == 0)),
        in_midcraft(s, settings) ==> (ActionSequence::Groundwork.should_use_spec(s, settings) <==> (
        s.effects.muscle_memory != 0 || s.effects.veneration != 0)),
        in_midcraft(s, settings) ==> (ActionSequence::CarefulSynthesis.should_use_spec(s, settings) <==> (
        s.effects.muscle_memory == 0 && s.effects.veneration != 0)),
        in_midcraft(s, settings) ==> (ActionSequence::FocusedSynthesisCombo.should_use_spec(s, settings)
            <==> (s.effects.muscle_memory == 0 && s.effects.veneration >= 2)),
        in_midcraft(s, settings) ==> (ActionSequence::PreparatoryTouch.should_use_spec(s, settings) <==> (
        s.effects.muscle_memory == 0 && s.effects.veneration <= 1 && s.effects.waste_not != 0)),
        in_midcraft(s, settings) ==> (ActionSequence::AdvancedTouchCombo.should_use_spec(s, settings) <==> (
        s.effects.muscle_memory == 0 && s.effects.veneration <= 1 && (s.effects.innovation >= 3
            || s.effects.innovation == 0) && s.effects.great_strides == 0)),
        in_midcraft(s, settings) ==> (ActionSequence::FocusedTouchCombo.should_use_spec(s, settings) <==> (
        s.effects.muscle_memory == 0 && s.effects.veneration <= 1 && (s.effects.innovation >= 2
            || s.effects.innovation == 0))),
{
}

/// The steps: every one but the three combos is the action of its name; the combos are Basic,
/// Standard and Advanced Touch, and Observe before Focused Synthesis or Focused Touch. The
/// search goes through every step, each once.
pub proof fn lemma_step_actions(q: ActionSequence)
    ensures
        q == ActionSequence::AdvancedTouchCombo ==> q.actions_spec() == seq![
            Action::BasicTouch,
            Action::StandardTouch,
            Action::AdvancedTouch,
        ],
        q == ActionSequence::FocusedSynthesisCombo ==> q.actions_spec() == seq![
            Action::Observe,
            Action::FocusedSynthesis,
        ],
        q == ActionSequence::FocusedTouchCombo ==> q.actions_spec() == seq![
            Action::Observe,
            Action::FocusedTouch,
        ],
        q == ActionSequence::MuscleMemory ==> q.actions_spec() == seq![Action::MuscleMemory],
        q == ActionSequence::Reflect ==> q.actions_spec() == seq![Action::Reflect],
        q == ActionSequence::CarefulSynthesis ==> q.actions_spec() == seq![Action::CarefulSynthesis],
        q == ActionSequence::Groundwork ==> q.actions_spec() == seq![Action::Groundwork],
        q == ActionSequence::PreparatoryTouch ==> q.actions_spec() == seq![Action::PreparatoryTouch],
        q == ActionSequence::PrudentTouch ==> q.actions_spec() == seq![Action::PrudentTouch],
        q == ActionSequence::TrainedFinesse ==> q.actions_spec() == seq![Action::TrainedFinesse],
        q == ActionSequence::Manipulation ==> q.actions_spec() == seq![Action::Manipulation],
        q == ActionSequence::WasteNot ==> q.actions_spec() == seq![Action::WasteNot],
        q == ActionSequence::WasteNot2 ==> q.actions_spec() == seq![Action::WasteNot2],
        q == ActionSequence::Innovation ==> q.actions_spec() == seq![Action::Innovation],
        q == ActionSequence::Veneration ==> q.actions_spec() == seq![Action::Veneration],
        q == ActionSequence::GreatStrides ==> q.actions_spec() == seq![Action::GreatStrides],
        q == ActionSequence::ByregotsBlessing ==> q.actions_spec() == seq![Action::ByregotsBlessing],
        ActionSequence::all_spec().len() == 17,
        ActionSequence::all_spec().contains(q),
        forall|i: int, j: int|
            0 <= i < j < ActionSequence::all_spec().len() ==> ActionSequence::all_spec()[i]
                != ActionSequence::all_spec()[j],
{
    let all = ActionSequence::all_spec();
    let k: int = match q {
        ActionSequence::MuscleMemory => 0,
        ActionSequence::Reflect => 1,
        ActionSequence::CarefulSynthesis => 2,
        ActionSequence::Groundwork => 3,
        ActionSequence::PreparatoryTouch => 4,
        ActionSequence::PrudentTouch => 5,
        ActionSequence::TrainedFinesse => 6,
        ActionSequence::AdvancedTouchCombo => 7,
        ActionSequence::FocusedSynthesisCombo => 8,
        ActionSequence::FocusedTouchCombo => 9,
        ActionSequence::Manipulation => 10,
        ActionSequence::WasteNot => 11,
        ActionSequence::WasteNot2 => 12,
        ActionSequence::Innovation => 13,
        ActionSequence::Veneration => 14,
        ActionSequence::GreatStrides => 15,
        ActionSequence::ByregotsBlessing => 16,
    };
    assert(all[k] == q);
}

} // verus!
