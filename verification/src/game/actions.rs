use vstd::prelude::*;

use crate::game::conditions::Condition;
use crate::game::effects::Effects;
use crate::game::units::{Durability, Progress, Quality, CP};

verus! {

#[derive(Debug, Clone, Copy, PartialEq, Eq, Structural, Hash)]
pub enum Action {
    BasicSynthesis,
    BasicTouch,
    MasterMend,
    Observe,
    TricksOfTheTrade,
    WasteNot,
    Veneration,
    StandardTouch,
    ComboStandardTouch,
    GreatStrides,
    Innovation,
    WasteNot2,
    ByregotsBlessing,
    PreciseTouch,
    MuscleMemory,
    CarefulSynthesis,
    Manipulation,
    PrudentTouch,
    FocusedSynthesis,
    FocusedTouch,
    Reflect,
    PreparatoryTouch,
    Groundwork,
    DelicateSynthesis,
    IntensiveSynthesis,
    AdvancedTouch,
    ComboAdvancedTouch,
    PrudentSynthesis,
    TrainedFinesse,
}

#[derive(Debug, Clone, Copy, PartialEq, Eq, Structural, Hash)]
pub enum ComboAction {
    SynthesisBegin,
    Observe,
    BasicTouch,
    StandardTouch,
}

/// The number of actions.
pub const NUM_ACTIONS: u64 = 29;

impl Action {
    /// The position of the action in the list of all actions, counted from 0.
    pub open spec fn index_spec(self) -> u64 {
        match self {
            Action::BasicSynthesis => 0,
            Action::BasicTouch => 1,
            Action::MasterMend => 2,
            Action::Observe => 3,
            Action::TricksOfTheTrade => 4,
            Action::WasteNot => 5,
            Action::Veneration => 6,
            Action::StandardTouch => 7,
            Action::ComboStandardTouch => 8,
            Action::GreatStrides => 9,
            Action::Innovation => 10,
            Action::WasteNot2 => 11,
            Action::ByregotsBlessing => 12,
            Action::PreciseTouch => 13,
            Action::MuscleMemory => 14,
            Action::CarefulSynthesis => 15,
            Action::Manipulation => 16,
            Action::PrudentTouch => 17,
            Action::FocusedSynthesis => 18,
            Action::FocusedTouch => 19,
            Action::Reflect => 20,
            Action::PreparatoryTouch => 21,
            Action::Groundwork => 22,
            Action::DelicateSynthesis => 23,
            Action::IntensiveSynthesis => 24,
            Action::AdvancedTouch => 25,
            Action::ComboAdvancedTouch => 26,
            Action::PrudentSynthesis => 27,
            Action::TrainedFinesse => 28,
        }
    }

    #[verifier::when_used_as_spec(index_spec)]
    pub fn index(self) -> (r: u64)
        ensures
            r == self.index_spec(),
    {
        match self {
            Action::BasicSynthesis => 0,
            Action::BasicTouch => 1,
            Action::MasterMend => 2,
            Action::Observe => 3,
            Action::TricksOfTheTrade => 4,
            Action::WasteNot => 5,
            Action::Veneration => 6,
            Action::StandardTouch => 7,
            Action::ComboStandardTouch => 8,
            Action::GreatStrides => 9,
            Action::Innovation => 10,
            Action::WasteNot2 => 11,
            Action::ByregotsBlessing => 12,
            Action::PreciseTouch => 13,
            Action::MuscleMemory => 14,
            Action::CarefulSynthesis => 15,
            Action::Manipulation => 16,
            Action::PrudentTouch => 17,
            Action::FocusedSynthesis => 18,
            Action::FocusedTouch => 19,
            Action::Reflect => 20,
            Action::PreparatoryTouch => 21,
            Action::Groundwork => 22,
            Action::DelicateSynthesis => 23,
            Action::IntensiveSynthesis => 24,
            Action::AdvancedTouch => 25,
            Action::ComboAdvancedTouch => 26,
            Action::PrudentSynthesis => 27,
            Action::TrainedFinesse => 28,
        }
    }

    /// The action at position `i` in the list of all actions.
    pub open spec fn from_index_spec(i: u64) -> Action {
        if i == 0 {
            Action::BasicSynthesis
        } else if i == 1 {
            Action::BasicTouch
        } else if i == 2 {
            Action::MasterMend
        } else if i == 3 {
            Action::Observe
        } else if i == 4 {
            Action::TricksOfTheTrade
        } else if i == 5 {
            Action::WasteNot
        } else if i == 6 {
            Action::Veneration
        } else if i == 7 {
            Action::StandardTouch
        } else if i == 8 {
            Action::ComboStandardTouch
        } else if i == 9 {
            Action::GreatStrides
        } else if i == 10 {
            Action::Innovation
        } else if i == 11 {
            Action::WasteNot2
        } else if i == 12 {
            Action::ByregotsBlessing
        } else if i == 13 {
            Action::PreciseTouch
        } else if i == 14 {
            Action::MuscleMemory
        } else if i == 15 {
            Action::CarefulSynthesis
        } else if i == 16 {
            Action::Manipulation
        } else if i == 17 {
            Action::PrudentTouch
        } else if i == 18 {
            Action::FocusedSynthesis
        } else if i == 19 {
            Action::FocusedTouch
        } else if i == 20 {
            Action::Reflect
        } else if i == 21 {
            Action::PreparatoryTouch
        } else if i == 22 {
            Action::Groundwork
        } else if i == 23 {
            Action::DelicateSynthesis
        } else if i == 24 {
            Action::IntensiveSynthesis
        } else if i == 25 {
            Action::AdvancedTouch
        } else if i == 26 {
            Action::ComboAdvancedTouch
        } else if i == 27 {
            Action::PrudentSynthesis
        } else {
            Action::TrainedFinesse
        }
    }

    /// The action at position `i` in the list of all actions.
    pub fn from_index(i: u64) -> (r: Action)
        requires
            i < NUM_ACTIONS,
        ensures
            r == Self::from_index_spec(i),
    {
        match i {
            0 => Action::BasicSynthesis,
            1 => Action::BasicTouch,
            2 => Action::MasterMend,
            3 => Action::Observe,
            4 => Action::TricksOfTheTrade,
            5 => Action::WasteNot,
            6 => Action::Veneration,
            7 => Action::StandardTouch,
            8 => Action::ComboStandardTouch,
            9 => Action::GreatStrides,
            10 => Action::Innovation,
            11 => Action::WasteNot2,
            12 => Action::ByregotsBlessing,
            13 => Action::PreciseTouch,
            14 => Action::MuscleMemory,
            15 => Action::CarefulSynthesis,
            16 => Action::Manipulation,
            17 => Action::PrudentTouch,
            18 => Action::FocusedSynthesis,
            19 => Action::FocusedTouch,
            20 => Action::Reflect,
            21 => Action::PreparatoryTouch,
            22 => Action::Groundwork,
            23 => Action::DelicateSynthesis,
            24 => Action::IntensiveSynthesis,
            25 => Action::AdvancedTouch,
            26 => Action::ComboAdvancedTouch,
            27 => Action::PrudentSynthesis,
            _ => Action::TrainedFinesse,
        }
    }

    pub proof fn lemma_index_bound(a: Action)
        ensures
            a.index_spec() < NUM_ACTIONS,
    {
    }

    /// Distinct actions have distinct positions.
    pub proof fn lemma_index_injective(a: Action, b: Action)
        ensures
            a.index_spec() == b.index_spec() ==> a == b,
    {
    }

    /// `from_index` undoes `index`, and `index` undoes `from_index`.
    pub proof fn lemma_from_index(i: u64)
        ensures
            i < NUM_ACTIONS ==> Self::from_index_spec(i).index_spec() == i,
    {
    }

    pub proof fn lemma_index_from(a: Action)
        ensures
            Self::from_index_spec(a.index_spec()) == a,
    {
    }

    /// The crafter level at which the action is learnt.
    pub open spec fn level_requirement_spec(self) -> u32 {
        match self {
            Action::BasicSynthesis => 1,
            Action::BasicTouch => 5,
            Action::MasterMend => 7,
            Action::Observe => 13,
            Action::TricksOfTheTrade => 13,
            Action::WasteNot => 15,
            Action::Veneration => 15,
            Action::StandardTouch => 18,
            Action::ComboStandardTouch => 18,
            Action::GreatStrides => 21,
            Action::Innovation => 26,
            Action::WasteNot2 => 47,
            Action::ByregotsBlessing => 50,
            Action::PreciseTouch => 53,
            Action::MuscleMemory => 54,
            Action::CarefulSynthesis => 62,
            Action::Manipulation => 65,
            Action::PrudentTouch => 66,
            Action::FocusedSynthesis => 67,
            Action::FocusedTouch => 68,
            Action::Reflect => 69,
            Action::PreparatoryTouch => 71,
            Action::Groundwork => 72,
            Action::DelicateSynthesis => 76,
            Action::IntensiveSynthesis => 78,
            Action::AdvancedTouch => 84,
            Action::ComboAdvancedTouch => 84,
            Action::PrudentSynthesis => 88,
            Action::TrainedFinesse => 90,
        }
    }

    /// The crafter level at which the action is learnt.
    #[verifier::when_used_as_spec(level_requirement_spec)]
    pub fn level_requirement(self) -> (r: u32)
        ensures
            r == self.level_requirement_spec(),
    {
        match self {
            Action::BasicSynthesis => 1,
            Action::BasicTouch => 5,
            Action::MasterMend => 7,
            Action::Observe => 13,
            Action::TricksOfTheTrade => 13,
            Action::WasteNot => 15,
            Action::Veneration => 15,
            Action::StandardTouch => 18,
            Action::ComboStandardTouch => 18,
            Action::GreatStrides => 21,
            Action::Innovation => 26,
            Action::WasteNot2 => 47,
            Action::ByregotsBlessing => 50,
            Action::PreciseTouch => 53,
            Action::MuscleMemory => 54,
            Action::CarefulSynthesis => 62,
            Action::Manipulation => 65,
            Action::PrudentTouch => 66,
            Action::FocusedSynthesis => 67,
            Action::FocusedTouch => 68,
            Action::Reflect => 69,
            Action::PreparatoryTouch => 71,
            Action::Groundwork => 72,
            Action::DelicateSynthesis => 76,
            Action::IntensiveSynthesis => 78,
            Action::AdvancedTouch => 84,
            Action::ComboAdvancedTouch => 84,
            Action::PrudentSynthesis => 88,
            Action::TrainedFinesse => 90,
        }
    }

    /// The time the action takes in a macro, in seconds.
    pub open spec fn time_cost_spec(self) -> u32 {
        match self {
            Action::BasicSynthesis => 3,
            Action::BasicTouch => 3,
            Action::MasterMend => 3,
            Action::Observe => 3,
            Action::TricksOfTheTrade => 2,
            Action::WasteNot => 2,
            Action::Veneration => 2,
            Action::StandardTouch => 3,
            Action::ComboStandardTouch => 3,
            Action::GreatStrides => 2,
            Action::Innovation => 2,
            Action::WasteNot2 => 2,
            Action::ByregotsBlessing => 3,
            Action::PreciseTouch => 3,
            Action::MuscleMemory => 3,
            Action::CarefulSynthesis => 3,
            Action::Manipulation => 2,
            Action::PrudentTouch => 3,
            Action::FocusedSynthesis => 3,
            Action::FocusedTouch => 3,
            Action::Reflect => 3,
            Action::PreparatoryTouch => 3,
            Action::Groundwork => 3,
            Action::DelicateSynthesis => 3,
            Action::IntensiveSynthesis => 3,
            Action::AdvancedTouch => 3,
            Action::ComboAdvancedTouch => 3,
            Action::PrudentSynthesis => 3,
            Action::TrainedFinesse => 3,
        }
    }

    /// The time the action takes in a macro, in seconds.
    #[verifier::when_used_as_spec(time_cost_spec)]
    pub fn time_cost(self) -> (r: u32)
        ensures
            r == self.time_cost_spec(),
    {
        match self {
            Action::BasicSynthesis => 3,
            Action::BasicTouch => 3,
            Action::MasterMend => 3,
            Action::Observe => 3,
            Action::TricksOfTheTrade => 2,
            Action::WasteNot => 2,
            Action::Veneration => 2,
            Action::StandardTouch => 3,
            Action::ComboStandardTouch => 3,
            Action::GreatStrides => 2,
            Action::Innovation => 2,
            Action::WasteNot2 => 2,
            Action::ByregotsBlessing => 3,
            Action::PreciseTouch => 3,
            Action::MuscleMemory => 3,
            Action::CarefulSynthesis => 3,
            Action::Manipulation => 2,
            Action::PrudentTouch => 3,
            Action::FocusedSynthesis => 3,
            Action::FocusedTouch => 3,
            Action::Reflect => 3,
            Action::PreparatoryTouch => 3,
            Action::Groundwork => 3,
            Action::DelicateSynthesis => 3,
            Action::IntensiveSynthesis => 3,
            Action::AdvancedTouch => 3,
            Action::ComboAdvancedTouch => 3,
            Action::PrudentSynthesis => 3,
            Action::TrainedFinesse => 3,
        }
    }

    /// The CP cost before the condition is applied.
    pub open spec fn base_cp_cost_spec(self) -> CP {
        match self {
            Action::BasicSynthesis => 0,
            Action::BasicTouch => 18,
            Action::MasterMend => 88,
            Action::Observe => 7,
            Action::TricksOfTheTrade => 0,
            Action::WasteNot => 56,
            Action::Veneration => 18,
            Action::StandardTouch => 32,
            Action::ComboStandardTouch => 18,
            Action::GreatStrides => 32,
            Action::Innovation => 18,
            Action::WasteNot2 => 98,
            Action::ByregotsBlessing => 24,
            Action::PreciseTouch => 18,
            Action::MuscleMemory => 6,
            Action::CarefulSynthesis => 7,
            Action::Manipulation => 96,
            Action::PrudentTouch => 25,
            Action::FocusedSynthesis => 5,
            Action::FocusedTouch => 18,
            Action::Reflect => 6,
            Action::PreparatoryTouch => 40,
            Action::Groundwork => 18,
            Action::DelicateSynthesis => 32,
            Action::IntensiveSynthesis => 6,
            Action::AdvancedTouch => 46,
            Action::ComboAdvancedTouch => 18,
            Action::PrudentSynthesis => 18,
            Action::TrainedFinesse => 32,
        }
    }

    /// The CP cost before the condition is applied.
    #[verifier::when_used_as_spec(base_cp_cost_spec)]
    pub fn base_cp_cost(self) -> (r: CP)
        ensures
            r == self.base_cp_cost_spec(),
    {
        match self {
            Action::BasicSynthesis => 0,
            Action::BasicTouch => 18,
            Action::MasterMend => 88,
            Action::Observe => 7,
            Action::TricksOfTheTrade => 0,
            Action::WasteNot => 56,
            Action::Veneration => 18,
            Action::StandardTouch => 32,
            Action::ComboStandardTouch => 18,
            Action::GreatStrides => 32,
            Action::Innovation => 18,
            Action::WasteNot2 => 98,
            Action::ByregotsBlessing => 24,
            Action::PreciseTouch => 18,
            Action::MuscleMemory => 6,
            Action::CarefulSynthesis => 7,
            Action::Manipulation => 96,
            Action::PrudentTouch => 25,
            Action::FocusedSynthesis => 5,
            Action::FocusedTouch => 18,
            Action::Reflect => 6,
            Action::PreparatoryTouch => 40,
            Action::Groundwork => 18,
            Action::DelicateSynthesis => 32,
            Action::IntensiveSynthesis => 6,
            Action::AdvancedTouch => 46,
            Action::ComboAdvancedTouch => 18,
            Action::PrudentSynthesis => 18,
            Action::TrainedFinesse => 32,
        }
    }

    /// The durability cost before the condition and effects are applied.
    pub open spec fn base_durability_cost_spec(self) -> Durability {
        match self {
            Action::BasicSynthesis => 10,
            Action::BasicTouch => 10,
            Action::MasterMend => 0,
            Action::Observe => 0,
            Action::TricksOfTheTrade => 0,
            Action::WasteNot => 0,
            Action::Veneration => 0,
            Action::StandardTouch => 10,
            Action::ComboStandardTouch => 10,
            Action::GreatStrides => 0,
            Action::Innovation => 0,
            Action::WasteNot2 => 0,
            Action::ByregotsBlessing => 10,
            Action::PreciseTouch => 10,
            Action::MuscleMemory => 10,
            Action::CarefulSynthesis => 10,
            Action::Manipulation => 0,
            Action::PrudentTouch => 5,
            Action::FocusedSynthesis => 10,
            Action::FocusedTouch => 10,
            Action::Reflect => 10,
            Action::PreparatoryTouch => 20,
            Action::Groundwork => 20,
            Action::DelicateSynthesis => 10,
            Action::IntensiveSynthesis => 10,
            Action::AdvancedTouch => 10,
            Action::ComboAdvancedTouch => 10,
            Action::PrudentSynthesis => 5,
            Action::TrainedFinesse => 0,
        }
    }

    /// The durability cost before the condition and effects are applied.
    #[verifier::when_used_as_spec(base_durability_cost_spec)]
    pub fn base_durability_cost(self) -> (r: Durability)
        ensures
            r == self.base_durability_cost_spec(),
    {
        match self {
            Action::BasicSynthesis => 10,
            Action::BasicTouch => 10,
            Action::MasterMend => 0,
            Action::Observe => 0,
            Action::TricksOfTheTrade => 0,
            Action::WasteNot => 0,
            Action::Veneration => 0,
            Action::StandardTouch => 10,
            Action::ComboStandardTouch => 10,
            Action::GreatStrides => 0,
            Action::Innovation => 0,
            Action::WasteNot2 => 0,
            Action::ByregotsBlessing => 10,
            Action::PreciseTouch => 10,
            Action::MuscleMemory => 10,
            Action::CarefulSynthesis => 10,
            Action::Manipulation => 0,
            Action::PrudentTouch => 5,
            Action::FocusedSynthesis => 10,
            Action::FocusedTouch => 10,
            Action::Reflect => 10,
            Action::PreparatoryTouch => 20,
            Action::Groundwork => 20,
            Action::DelicateSynthesis => 10,
            Action::IntensiveSynthesis => 10,
            Action::AdvancedTouch => 10,
            Action::ComboAdvancedTouch => 10,
            Action::PrudentSynthesis => 5,
            Action::TrainedFinesse => 0,
        }
    }

    /// The progress of the action before the condition and effects are applied,
    /// in twentieths of a potency point.
    pub open spec fn base_progress_increase_spec(self) -> int {
        match self {
            Action::BasicSynthesis => 2400,
            Action::BasicTouch => 0,
            Action::MasterMend => 0,
            Action::Observe => 0,
            Action::TricksOfTheTrade => 0,
            Action::WasteNot => 0,
            Action::Veneration => 0,
            Action::StandardTouch => 0,
            Action::ComboStandardTouch => 0,
            Action::GreatStrides => 0,
            Action::Innovation => 0,
            Action::WasteNot2 => 0,
            Action::ByregotsBlessing => 0,
            Action::PreciseTouch => 0,
            Action::MuscleMemory => 6000,
            Action::CarefulSynthesis => 3600,
            Action::Manipulation => 0,
            Action::PrudentTouch => 0,
            Action::FocusedSynthesis => 4000,
            Action::FocusedTouch => 0,
            Action::Reflect => 0,
            Action::PreparatoryTouch => 0,
            Action::Groundwork => 7200,
            Action::DelicateSynthesis => 2000,
            Action::IntensiveSynthesis => 8000,
            Action::AdvancedTouch => 0,
            Action::ComboAdvancedTouch => 0,
            Action::PrudentSynthesis => 3600,
            Action::TrainedFinesse => 0,
        }
    }

    /// The progress of the action before the condition and effects are applied,
    /// in twentieths of a potency point.
    pub fn base_progress_increase(self) -> (r: Progress)
        ensures
            r.inner_value == self.base_progress_increase_spec(),
    {
        match self {
            Action::BasicSynthesis => Progress::new(120),
            Action::BasicTouch => Progress::new(0),
            Action::MasterMend => Progress::new(0),
            Action::Observe => Progress::new(0),
            Action::TricksOfTheTrade => Progress::new(0),
            Action::WasteNot => Progress::new(0),
            Action::Veneration => Progress::new(0),
            Action::StandardTouch => Progress::new(0),
            Action::ComboStandardTouch => Progress::new(0),
            Action::GreatStrides => Progress::new(0),
            Action::Innovation => Progress::new(0),
            Action::WasteNot2 => Progress::new(0),
            Action::ByregotsBlessing => Progress::new(0),
            Action::PreciseTouch => Progress::new(0),
            Action::MuscleMemory => Progress::new(300),
            Action::CarefulSynthesis => Progress::new(180),
            Action::Manipulation => Progress::new(0),
            Action::PrudentTouch => Progress::new(0),
            Action::FocusedSynthesis => Progress::new(200),
            Action::FocusedTouch => Progress::new(0),
            Action::Reflect => Progress::new(0),
            Action::PreparatoryTouch => Progress::new(0),
            Action::Groundwork => Progress::new(360),
            Action::DelicateSynthesis => Progress::new(100),
            Action::IntensiveSynthesis => Progress::new(400),
            Action::AdvancedTouch => Progress::new(0),
            Action::ComboAdvancedTouch => Progress::new(0),
            Action::PrudentSynthesis => Progress::new(180),
            Action::TrainedFinesse => Progress::new(0),
        }
    }

    /// The quality of the action before the condition and effects are applied,
    /// in eight-hundredths of a potency point.
    pub open spec fn base_quality_increase_spec(self) -> int {
        match self {
            Action::BasicSynthesis => 0,
            Action::BasicTouch => 80000,
            Action::MasterMend => 0,
            Action::Observe => 0,
            Action::TricksOfTheTrade => 0,
            Action::WasteNot => 0,
            Action::Veneration => 0,
            Action::StandardTouch => 100000,
            Action::ComboStandardTouch => 100000,
            Action::GreatStrides => 0,
            Action::Innovation => 0,
            Action::WasteNot2 => 0,
            Action::ByregotsBlessing => 80000,
            Action::PreciseTouch => 120000,
            Action::MuscleMemory => 0,
            Action::CarefulSynthesis => 0,
            Action::Manipulation => 0,
            Action::PrudentTouch => 80000,
            Action::FocusedSynthesis => 0,
            Action::FocusedTouch => 120000,
            Action::Reflect => 80000,
            Action::PreparatoryTouch => 160000,
            Action::Groundwork => 0,
            Action::DelicateSynthesis => 80000,
            Action::IntensiveSynthesis => 0,
            Action::AdvancedTouch => 120000,
            Action::ComboAdvancedTouch => 120000,
            Action::PrudentSynthesis => 0,
            Action::TrainedFinesse => 80000,
        }
    }

    /// The quality of the action before the condition and effects are applied,
    /// in eight-hundredths of a potency point.
    pub fn base_quality_increase(self) -> (r: Quality)
        ensures
            r.inner_value == self.base_quality_increase_spec(),
    {
        match self {
            Action::BasicSynthesis => Quality::new(0),
            Action::BasicTouch => Quality::new(100),
            Action::MasterMend => Quality::new(0),
            Action::Observe => Quality::new(0),
            Action::TricksOfTheTrade => Quality::new(0),
            Action::WasteNot => Quality::new(0),
            Action::Veneration => Quality::new(0),
            Action::StandardTouch => Quality::new(125),
            Action::ComboStandardTouch => Quality::new(125),
            Action::GreatStrides => Quality::new(0),
            Action::Innovation => Quality::new(0),
            Action::WasteNot2 => Quality::new(0),
            Action::ByregotsBlessing => Quality::new(100),
            Action::PreciseTouch => Quality::new(150),
            Action::MuscleMemory => Quality::new(0),
            Action::CarefulSynthesis => Quality::new(0),
            Action::Manipulation => Quality::new(0),
            Action::PrudentTouch => Quality::new(100),
            Action::FocusedSynthesis => Quality::new(0),
            Action::FocusedTouch => Quality::new(150),
            Action::Reflect => Quality::new(100),
            Action::PreparatoryTouch => Quality::new(200),
            Action::Groundwork => Quality::new(0),
            Action::DelicateSynthesis => Quality::new(100),
            Action::IntensiveSynthesis => Quality::new(0),
            Action::AdvancedTouch => Quality::new(150),
            Action::ComboAdvancedTouch => Quality::new(150),
            Action::PrudentSynthesis => Quality::new(0),
            Action::TrainedFinesse => Quality::new(100),
        }
    }

    /// The CP cost in the given condition.
    pub open spec fn cp_cost_spec(self, condition: Condition) -> int {
        match condition {
            Condition::Pliant => (self.base_cp_cost_spec() + 1) / 2,
            _ => self.base_cp_cost_spec() as int,
        }
    }

    pub fn cp_cost(self, effects: &Effects, condition: Condition) -> (r: CP)
        ensures
            r == self.cp_cost_spec(condition),
    {
        match condition {
            Condition::Pliant => (self.base_cp_cost() + 1) / 2,
            _ => self.base_cp_cost(),
        }
    }

    /// The durability cost in the given condition: halved (rounding up) when sturdy,
    /// then reduced by half of that (rounding down) under Waste Not.
    pub open spec fn durability_cost_spec(self, effects: Effects, condition: Condition) -> int {
        let base_cost = match condition {
            Condition::Sturdy => (self.base_durability_cost_spec() + 1) / 2,
            _ => self.base_durability_cost_spec() as int,
        };
        let effect_bonus = if effects.waste_not > 0 {
            base_cost / 2
        } else {
            0
        };
        base_cost - effect_bonus
    }

    pub fn durability_cost(self, effects: &Effects, condition: Condition) -> (r: Durability)
        ensures
            r == self.durability_cost_spec(*effects, condition),
    {
        let base_cost = match condition {
            Condition::Sturdy => (self.base_durability_cost() + 1) / 2,
            _ => self.base_durability_cost(),
        };
        let mut effect_bonus: Durability = 0;
        if effects.waste_not > 0 {
            effect_bonus += base_cost / 2;
        }
        base_cost - effect_bonus
    }

    /// The progress of the action once condition and effects apply: x1.5 when malleable,
    /// then +100% under Muscle Memory and +50% under Veneration (each rounded down).
    pub open spec fn progress_increase_spec(self, effects: Effects, condition: Condition) -> int {
        let base = match condition {
            Condition::Malleable => self.base_progress_increase_spec() * 3 / 2,
            _ => self.base_progress_increase_spec(),
        };
        let muscle_memory_bonus = if effects.muscle_memory > 0 {
            base
        } else {
            0
        };
        let veneration_bonus = if effects.veneration > 0 {
            base / 2
        } else {
            0
        };
        base + (muscle_memory_bonus + veneration_bonus)
    }

    pub fn progress_increase(self, effects: &Effects, condition: Condition) -> (r: Progress)
        ensures
            r.inner_value == self.progress_increase_spec(*effects, condition),
    {
        let base_progress = match condition {
            Condition::Malleable => self.base_progress_increase().scale(3, 2),
            _ => self.base_progress_increase(),
        };
        let mut effect_bonus = Progress::new(0);
        if effects.muscle_memory > 0 {
            let muscle_memory_bonus = base_progress;
            effect_bonus = effect_bonus.add(muscle_memory_bonus);
        }
        if effects.veneration > 0 {
            let veneration_bonus = base_progress.scale(1, 2);
            effect_bonus = effect_bonus.add(veneration_bonus);
        }
        base_progress.add(effect_bonus)
    }

    /// Quality before the condition: for Byregot's Blessing, +20% per inner quiet stack.
    pub open spec fn quality_before_condition(self, effects: Effects) -> int {
        match self {
            Action::ByregotsBlessing => self.base_quality_increase_spec() * (2
                * effects.inner_quiet + 10) / 10,
            _ => self.base_quality_increase_spec(),
        }
    }

    /// The multiplier of a condition on quality, as a fraction (numerator, denominator).
    pub open spec fn quality_condition_factor(condition: Condition) -> (int, int) {
        match condition {
            Condition::Good => (3, 2),
            Condition::Excellent => (4, 1),
            Condition::Poor => (1, 2),
            _ => (1, 1),
        }
    }

    /// Quality once the condition applies.
    pub open spec fn quality_after_condition(self, effects: Effects, condition: Condition) -> int {
        let q = self.quality_before_condition(effects);
        match condition {
            Condition::Good => q * 3 / 2,
            Condition::Excellent => q * 4 / 1,
            Condition::Poor => q * 1 / 2,
            _ => q,
        }
    }

    /// Quality once inner quiet applies (+10% per stack).
    pub open spec fn quality_after_inner_quiet(self, effects: Effects, condition: Condition) -> int {
        self.quality_after_condition(effects, condition) * (10 + effects.inner_quiet) / 10
    }

    /// The quality of the action: the value above, +50% (rounded down) under Innovation
    /// and +100% under Great Strides.
    pub open spec fn quality_increase_spec(self, effects: Effects, condition: Condition) -> int {
        let base_quality = self.quality_after_inner_quiet(effects, condition);
        let innovation_bonus = if effects.innovation != 0 {
            base_quality / 2
        } else {
            0
        };
        let great_strides_bonus = if effects.great_strides != 0 {
            base_quality
        } else {
            0
        };
        base_quality + innovation_bonus + great_strides_bonus
    }

    /// Every intermediate value of the quality computation fits in a `u32`.
    pub open spec fn quality_increase_fits(self, effects: Effects, condition: Condition) -> bool {
        let b = self.base_quality_increase_spec();
        let q0 = self.quality_before_condition(effects);
        let q1 = self.quality_after_condition(effects, condition);
        let q2 = self.quality_after_inner_quiet(effects, condition);
        &&& (self == Action::ByregotsBlessing ==> b * (2 * effects.inner_quiet + 10) <= u32::MAX)
        &&& q0 * Self::quality_condition_factor(condition).0 <= u32::MAX
        &&& q1 * (10 + effects.inner_quiet) <= u32::MAX
        &&& self.quality_increase_spec(effects, condition) <= u32::MAX
    }

    pub fn quality_increase(self, effects: &Effects, condition: Condition) -> (r: Quality)
        requires
            self.quality_increase_fits(*effects, condition),
        ensures
            r.inner_value == self.quality_increase_spec(*effects, condition),
    {
        let mut base_quality = match self {
            Action::ByregotsBlessing => self.base_quality_increase().scale(
                2 * effects.inner_quiet as u32 + 10,
                10,
            ),
            _ => self.base_quality_increase(),
        };
        match condition {
            Condition::Good => base_quality = base_quality.scale(3, 2),
            Condition::Excellent => base_quality = base_quality.scale(4, 1),
            Condition::Poor => base_quality = base_quality.scale(1, 2),
            _ => (),
        };
        base_quality = base_quality.scale(10 + effects.inner_quiet as u32, 10);
        let innovation_bonus = if effects.innovation != 0 {
            base_quality.scale(1, 2)
        } else {
            Quality::new(0)
        };
        let great_strides_bonus = if effects.great_strides != 0 {
            base_quality
        } else {
            Quality::new(0)
        };
        base_quality.add(innovation_bonus).add(great_strides_bonus)
    }

    /// The action that must directly precede this one, if any.
    pub open spec fn required_combo_spec(self) -> Option<ComboAction> {
        match self {
            Action::Reflect => Some(ComboAction::SynthesisBegin),
            Action::MuscleMemory => Some(ComboAction::SynthesisBegin),
            Action::ComboStandardTouch => Some(ComboAction::BasicTouch),
            Action::ComboAdvancedTouch => Some(ComboAction::StandardTouch),
            Action::FocusedSynthesis => Some(ComboAction::Observe),
            Action::FocusedTouch => Some(ComboAction::Observe),
            _ => None,
        }
    }

    #[verifier::when_used_as_spec(required_combo_spec)]
    pub fn required_combo(self) -> (r: Option<ComboAction>)
        ensures
            r == self.required_combo_spec(),
    {
        match self {
            Action::Reflect => Some(ComboAction::SynthesisBegin),
            Action::MuscleMemory => Some(ComboAction::SynthesisBegin),
            Action::ComboStandardTouch => Some(ComboAction::BasicTouch),
            Action::ComboAdvancedTouch => Some(ComboAction::StandardTouch),
            Action::FocusedSynthesis => Some(ComboAction::Observe),
            Action::FocusedTouch => Some(ComboAction::Observe),
            _ => None,
        }
    }

    /// The combo that the action starts, if any.
    pub open spec fn to_combo_spec(self) -> Option<ComboAction> {
        match self {
            Action::BasicTouch => Some(ComboAction::BasicTouch),
            Action::ComboStandardTouch => Some(ComboAction::StandardTouch),
            Action::Observe => Some(ComboAction::Observe),
            _ => None,
        }
    }

    #[verifier::when_used_as_spec(to_combo_spec)]
    pub fn to_combo(self) -> (r: Option<ComboAction>)
        ensures
            r == self.to_combo_spec(),
    {
        match self {
            Action::BasicTouch => Some(ComboAction::BasicTouch),
            Action::ComboStandardTouch => Some(ComboAction::StandardTouch),
            Action::Observe => Some(ComboAction::Observe),
            _ => None,
        }
    }

    /// The in-game name of the action.
    pub open spec fn display_name_spec(self) -> Seq<char> {
        match self {
            Action::BasicSynthesis => "Basic Synthesis"@,
            Action::BasicTouch => "Basic Touch"@,
            Action::MasterMend => "Master's Mend"@,
            Action::Observe => "Observe"@,
            Action::TricksOfTheTrade => "Tricks of the Trade"@,
            Action::WasteNot => "Waste Not"@,
            Action::Veneration => "Veneration"@,
            Action::StandardTouch => "Standard Touch"@,
            Action::ComboStandardTouch => "Standard Touch"@,
            Action::GreatStrides => "Great Strides"@,
            Action::Innovation => "Innovation"@,
            Action::WasteNot2 => "Waste Not II"@,
            Action::ByregotsBlessing => "Byregot's Blessing"@,
            Action::PreciseTouch => "Precise Touch"@,
            Action::MuscleMemory => "Muscle Memory"@,
            Action::CarefulSynthesis => "Careful Synthesis"@,
            Action::Manipulation => "Manipulation"@,
            Action::PrudentTouch => "Prudent Touch"@,
            Action::FocusedSynthesis => "Focused Synthesis"@,
            Action::FocusedTouch => "Focused Touch"@,
            Action::Reflect => "Reflect"@,
            Action::PreparatoryTouch => "Preparatory Touch"@,
            Action::Groundwork => "Groundwork"@,
            Action::DelicateSynthesis => "Delicate Synthesis"@,
            Action::IntensiveSynthesis => "Intensive Synthesis"@,
            Action::AdvancedTouch => "Advanced Touch"@,
            Action::ComboAdvancedTouch => "Advanced Touch"@,
            Action::PrudentSynthesis => "Prudent Synthesis"@,
            Action::TrainedFinesse => "Trained Finesse"@,
        }
    }

    pub fn display_name(self) -> (r: String)
        ensures
            r@ == self.display_name_spec(),
    {
        let name: &str = match self {
            Action::BasicSynthesis => "Basic Synthesis",
            Action::BasicTouch => "Basic Touch",
            Action::MasterMend => "Master's Mend",
            Action::Observe => "Observe",
            Action::TricksOfTheTrade => "Tricks of the Trade",
            Action::WasteNot => "Waste Not",
            Action::Veneration => "Veneration",
            Action::StandardTouch => "Standard Touch",
            Action::ComboStandardTouch => "Standard Touch",
            Action::GreatStrides => "Great Strides",
            Action::Innovation => "Innovation",
            Action::WasteNot2 => "Waste Not II",
            Action::ByregotsBlessing => "Byregot's Blessing",
            Action::PreciseTouch => "Precise Touch",
            Action::MuscleMemory => "Muscle Memory",
            Action::CarefulSynthesis => "Careful Synthesis",
            Action::Manipulation => "Manipulation",
            Action::PrudentTouch => "Prudent Touch",
            Action::FocusedSynthesis => "Focused Synthesis",
            Action::FocusedTouch => "Focused Touch",
            Action::Reflect => "Reflect",
            Action::PreparatoryTouch => "Preparatory Touch",
            Action::Groundwork => "Groundwork",
            Action::DelicateSynthesis => "Delicate Synthesis",
            Action::IntensiveSynthesis => "Intensive Synthesis",
            Action::AdvancedTouch => "Advanced Touch",
            Action::ComboAdvancedTouch => "Advanced Touch",
            Action::PrudentSynthesis => "Prudent Synthesis",
            Action::TrainedFinesse => "Trained Finesse",
        };
        name.to_owned()
    }
}


/// Two actions have the same display name exactly when they are the same action or the
/// in-combo and out-of-combo versions of Standard Touch or of Advanced Touch.
pub proof fn lemma_display_name_distinct(a: Action, b: Action)
    ensures
        a.display_name_spec() == b.display_name_spec() <==> (a == b || (a == Action::StandardTouch
            && b == Action::ComboStandardTouch) || (a == Action::ComboStandardTouch && b
            == Action::StandardTouch) || (a == Action::AdvancedTouch && b
            == Action::ComboAdvancedTouch) || (a == Action::ComboAdvancedTouch && b
            == Action::AdvancedTouch)),
{
    reveal_strlit("Basic Synthesis");
    reveal_strlit("Basic Touch");
    reveal_strlit("Master's Mend");
    reveal_strlit("Observe");
    reveal_strlit("Tricks of the Trade");
    reveal_strlit("Waste Not");
    reveal_strlit("Veneration");
    reveal_strlit("Standard Touch");
    reveal_strlit("Great Strides");
    reveal_strlit("Innovation");
    reveal_strlit("Waste Not II");
    reveal_strlit("Byregot's Blessing");
    reveal_strlit("Precise Touch");
    reveal_strlit("Muscle Memory");
    reveal_strlit("Careful Synthesis");
    reveal_strlit("Manipulation");
    reveal_strlit("Prudent Touch");
    reveal_strlit("Focused Synthesis");
    reveal_strlit("Focused Touch");
    reveal_strlit("Reflect");
    reveal_strlit("Preparatory Touch");
    reveal_strlit("Groundwork");
    reveal_strlit("Delicate Synthesis");
    reveal_strlit("Intensive Synthesis");
    reveal_strlit("Advanced Touch");
    reveal_strlit("Prudent Synthesis");
    reveal_strlit("Trained Finesse");
    let na = a.display_name_spec();
    let nb = b.display_name_spec();
    if na == nb {
        assert(na.len() == nb.len());
        assert(na[0] == nb[0]);
        assert(na[1] == nb[1]);
        assert(na[2] == nb[2]);
    }
}


/// The level at which a crafter learns each action.
pub proof fn lemma_level_table()
    ensures
        Action::BasicSynthesis.level_requirement_spec() == 1,
        Action::BasicTouch.level_requirement_spec() == 5,
        Action::MasterMend.level_requirement_spec() == 7,
        Action::Observe.level_requirement_spec() == 13,
        Action::TricksOfTheTrade.level_requirement_spec() == 13,
        Action::WasteNot.level_requirement_spec() == 15,
        Action::Veneration.level_requirement_spec() == 15,
        Action::StandardTouch.level_requirement_spec() == 18,
        Action::ComboStandardTouch.level_requirement_spec() == 18,
        Action::GreatStrides.level_requirement_spec() == 21,
        Action::Innovation.level_requirement_spec() == 26,
        Action::WasteNot2.level_requirement_spec() == 47,
        Action::ByregotsBlessing.level_requirement_spec() == 50,
        Action::PreciseTouch.level_requirement_spec() == 53,
        Action::MuscleMemory.level_requirement_spec() == 54,
        Action::CarefulSynthesis.level_requirement_spec() == 62,
        Action::Manipulation.level_requirement_spec() == 65,
        Action::PrudentTouch.level_requirement_spec() == 66,
        Action::FocusedSynthesis.level_requirement_spec() == 67,
        Action::FocusedTouch.level_requirement_spec() == 68,
        Action::Reflect.level_requirement_spec() == 69,
        Action::PreparatoryTouch.level_requirement_spec() == 71,
        Action::Groundwork.level_requirement_spec() == 72,
        Action::DelicateSynthesis.level_requirement_spec() == 76,
        Action::IntensiveSynthesis.level_requirement_spec() == 78,
        Action::AdvancedTouch.level_requirement_spec() == 84,
        Action::ComboAdvancedTouch.level_requirement_spec() == 84,
        Action::PrudentSynthesis.level_requirement_spec() == 88,
        Action::TrainedFinesse.level_requirement_spec() == 90,
{
}

/// The seconds each action takes in a macro.
pub proof fn lemma_time_table()
    ensures
        Action::BasicSynthesis.time_cost_spec() == 3,
        Action::BasicTouch.time_cost_spec() == 3,
        Action::MasterMend.time_cost_spec() == 3,
        Action::Observe.time_cost_spec() == 3,
        Action::TricksOfTheTrade.time_cost_spec() == 2,
        Action::WasteNot.time_cost_spec() == 2,
        Action::Veneration.time_cost_spec() == 2,
        Action::StandardTouch.time_cost_spec() == 3,
        Action::ComboStandardTouch.time_cost_spec() == 3,
        Action::GreatStrides.time_cost_spec() == 2,
        Action::Innovation.time_cost_spec() == 2,
        Action::WasteNot2.time_cost_spec() == 2,
        Action::ByregotsBlessing.time_cost_spec() == 3,
        Action::PreciseTouch.time_cost_spec() == 3,
        Action::MuscleMemory.time_cost_spec() == 3,
        Action::CarefulSynthesis.time_cost_spec() == 3,
        Action::Manipulation.time_cost_spec() == 2,
        Action::PrudentTouch.time_cost_spec() == 3,
        Action::FocusedSynthesis.time_cost_spec() == 3,
        Action::FocusedTouch.time_cost_spec() == 3,
        Action::Reflect.time_cost_spec() == 3,
        Action::PreparatoryTouch.time_cost_spec() == 3,
        Action::Groundwork.time_cost_spec() == 3,
        Action::DelicateSynthesis.time_cost_spec() == 3,
        Action::IntensiveSynthesis.time_cost_spec() == 3,
        Action::AdvancedTouch.time_cost_spec() == 3,
        Action::ComboAdvancedTouch.time_cost_spec() == 3,
        Action::PrudentSynthesis.time_cost_spec() == 3,
        Action::TrainedFinesse.time_cost_spec() == 3,
{
}

/// What each action costs in CP, before the condition.
pub proof fn lemma_cp_cost_table()
    ensures
        Action::BasicSynthesis.base_cp_cost_spec() == 0,
        Action::BasicTouch.base_cp_cost_spec() == 18,
        Action::MasterMend.base_cp_cost_spec() == 88,
        Action::Observe.base_cp_cost_spec() == 7,
        Action::TricksOfTheTrade.base_cp_cost_spec() == 0,
        Action::WasteNot.base_cp_cost_spec() == 56,
        Action::Veneration.base_cp_cost_spec() == 18,
        Action::StandardTouch.base_cp_cost_spec() == 32,
        Action::ComboStandardTouch.base_cp_cost_spec() == 18,
        Action::GreatStrides.base_cp_cost_spec() == 32,
        Action::Innovation.base_cp_cost_spec() == 18,
        Action::WasteNot2.base_cp_cost_spec() == 98,
        Action::ByregotsBlessing.base_cp_cost_spec() == 24,
        Action::PreciseTouch.base_cp_cost_spec() == 18,
        Action::MuscleMemory.base_cp_cost_spec() == 6,
        Action::CarefulSynthesis.base_cp_cost_spec() == 7,
        Action::Manipulation.base_cp_cost_spec() == 96,
        Action::PrudentTouch.base_cp_cost_spec() == 25,
        Action::FocusedSynthesis.base_cp_cost_spec() == 5,
        Action::FocusedTouch.base_cp_cost_spec() == 18,
        Action::Reflect.base_cp_cost_spec() == 6,
        Action::PreparatoryTouch.base_cp_cost_spec() == 40,
        Action::Groundwork.base_cp_cost_spec() == 18,
        Action::DelicateSynthesis.base_cp_cost_spec() == 32,
        Action::IntensiveSynthesis.base_cp_cost_spec() == 6,
        Action::AdvancedTouch.base_cp_cost_spec() == 46,
        Action::ComboAdvancedTouch.base_cp_cost_spec() == 18,
        Action::PrudentSynthesis.base_cp_cost_spec() == 18,
        Action::TrainedFinesse.base_cp_cost_spec() == 32,
{
}

/// The durability each action uses, before the condition and effects.
pub proof fn lemma_durability_cost_table()
    ensures
        Action::BasicSynthesis.base_durability_cost_spec() == 10,
        Action::BasicTouch.base_durability_cost_spec() == 10,
        Action::MasterMend.base_durability_cost_spec() == 0,
        Action::Observe.base_durability_cost_spec() == 0,
        Action::TricksOfTheTrade.base_durability_cost_spec() == 0,
        Action::WasteNot.base_durability_cost_spec() == 0,
        Action::Veneration.base_durability_cost_spec() == 0,
        Action::StandardTouch.base_durability_cost_spec() == 10,
        Action::ComboStandardTouch.base_durability_cost_spec() == 10,
        Action::GreatStrides.base_durability_cost_spec() == 0,
        Action::Innovation.base_durability_cost_spec() == 0,
        Action::WasteNot2.base_durability_cost_spec() == 0,
        Action::ByregotsBlessing.base_durability_cost_spec() == 10,
        Action::PreciseTouch.base_durability_cost_spec() == 10,
        Action::MuscleMemory.base_durability_cost_spec() == 10,
        Action::CarefulSynthesis.base_durability_cost_spec() == 10,
        Action::Manipulation.base_durability_cost_spec() == 0,
        Action::PrudentTouch.base_durability_cost_spec() == 5,
        Action::FocusedSynthesis.base_durability_cost_spec() == 10,
        Action::FocusedTouch.base_durability_cost_spec() == 10,
        Action::Reflect.base_durability_cost_spec() == 10,
        Action::PreparatoryTouch.base_durability_cost_spec() == 20,
        Action::Groundwork.base_durability_cost_spec() == 20,
        Action::DelicateSynthesis.base_durability_cost_spec() == 10,
        Action::IntensiveSynthesis.base_durability_cost_spec() == 10,
        Action::AdvancedTouch.base_durability_cost_spec() == 10,
        Action::ComboAdvancedTouch.base_durability_cost_spec() == 10,
        Action::PrudentSynthesis.base_durability_cost_spec() == 5,
        Action::TrainedFinesse.base_durability_cost_spec() == 0,
{
}

/// The progress potency of each action, before the condition and effects (a potency point is 20 units of progress).
pub proof fn lemma_progress_table()
    ensures
        Action::BasicSynthesis.base_progress_increase_spec() == 120 * 20,
        Action::BasicTouch.base_progress_increase_spec() == 0,
        Action::MasterMend.base_progress_increase_spec() == 0,
        Action::Observe.base_progress_increase_spec() == 0,
        Action::TricksOfTheTrade.base_progress_increase_spec() == 0,
        Action::WasteNot.base_progress_increase_spec() == 0,
        Action::Veneration.base_progress_increase_spec() == 0,
        Action::StandardTouch.base_progress_increase_spec() == 0,
        Action::ComboStandardTouch.base_progress_increase_spec() == 0,
        Action::GreatStrides.base_progress_increase_spec() == 0,
        Action::Innovation.base_progress_increase_spec() == 0,
        Action::WasteNot2.base_progress_increase_spec() == 0,
        Action::ByregotsBlessing.base_progress_increase_spec() == 0,
        Action::PreciseTouch.base_progress_increase_spec() == 0,
        Action::MuscleMemory.base_progress_increase_spec() == 300 * 20,
        Action::CarefulSynthesis.base_progress_increase_spec() == 180 * 20,
        Action::Manipulation.base_progress_increase_spec() == 0,
        Action::PrudentTouch.base_progress_increase_spec() == 0,
        Action::FocusedSynthesis.base_progress_increase_spec() == 200 * 20,
        Action::FocusedTouch.base_progress_increase_spec() == 0,
        Action::Reflect.base_progress_increase_spec() == 0,
        Action::PreparatoryTouch.base_progress_increase_spec() == 0,
        Action::Groundwork.base_progress_increase_spec() == 360 * 20,
        Action::DelicateSynthesis.base_progress_increase_spec() == 100 * 20,
        Action::IntensiveSynthesis.base_progress_increase_spec() == 400 * 20,
        Action::AdvancedTouch.base_progress_increase_spec() == 0,
        Action::ComboAdvancedTouch.base_progress_increase_spec() == 0,
        Action::PrudentSynthesis.base_progress_increase_spec() == 180 * 20,
        Action::TrainedFinesse.base_progress_increase_spec() == 0,
{
}

/// The quality potency of each action, before the condition and effects (a potency point is 800 units of quality).
pub proof fn lemma_quality_table()
    ensures
        Action::BasicSynthesis.base_quality_increase_spec() == 0,
        Action::BasicTouch.base_quality_increase_spec() == 100 * 800,
        Action::MasterMend.base_quality_increase_spec() == 0,
        Action::Observe.base_quality_increase_spec() == 0,
        Action::TricksOfTheTrade.base_quality_increase_spec() == 0,
        Action::WasteNot.base_quality_increase_spec() == 0,
        Action::Veneration.base_quality_increase_spec() == 0,
        Action::StandardTouch.base_quality_increase_spec() == 125 * 800,
        Action::ComboStandardTouch.base_quality_increase_spec() == 125 * 800,
        Action::GreatStrides.base_quality_increase_spec() == 0,
        Action::Innovation.base_quality_increase_spec() == 0,
        Action::WasteNot2.base_quality_increase_spec() == 0,
        Action::ByregotsBlessing.base_quality_increase_spec() == 100 * 800,
        Action::PreciseTouch.base_quality_increase_spec() == 150 * 800,
        Action::MuscleMemory.base_quality_increase_spec() == 0,
        Action::CarefulSynthesis.base_quality_increase_spec() == 0,
        Action::Manipulation.base_quality_increase_spec() == 0,
        Action::PrudentTouch.base_quality_increase_spec() == 100 * 800,
        Action::FocusedSynthesis.base_quality_increase_spec() == 0,
        Action::FocusedTouch.base_quality_increase_spec() == 150 * 800,
        Action::Reflect.base_quality_increase_spec() == 100 * 800,
        Action::PreparatoryTouch.base_quality_increase_spec() == 200 * 800,
        Action::Groundwork.base_quality_increase_spec() == 0,
        Action::DelicateSynthesis.base_quality_increase_spec() == 100 * 800,
        Action::IntensiveSynthesis.base_quality_increase_spec() == 0,
        Action::AdvancedTouch.base_quality_increase_spec() == 150 * 800,
        Action::ComboAdvancedTouch.base_quality_increase_spec() == 150 * 800,
        Action::PrudentSynthesis.base_quality_increase_spec() == 0,
        Action::TrainedFinesse.base_quality_increase_spec() == 100 * 800,
{
}

/// The game's rules for costs and gains. CP: the base cost, halved (rounding up) when
/// pliant. Durability: the base cost, halved (rounding up) when sturdy, and only the larger
/// half of that paid under Waste Not. Progress: +100% under Muscle Memory, +50% (rounded
/// down) under Veneration, on a base raised by half when malleable. Quality in a normal step:
/// +10% per inner quiet stack (rounded down; Byregot's Blessing first gains 20% per stack),
/// then +50% (rounded down) under Innovation and +100% under Great Strides.
pub proof fn lemma_action_rules(a: Action, e: Effects, c: Condition)
    ensures
        c != Condition::Pliant ==> a.cp_cost_spec(c) == a.base_cp_cost_spec(),
        2 * a.cp_cost_spec(Condition::Pliant) == a.base_cp_cost_spec() || 2 * a.cp_cost_spec(
            Condition::Pliant,
        ) == a.base_cp_cost_spec() + 1,
        c != Condition::Sturdy && e.waste_not == 0 ==> a.durability_cost_spec(e, c)
            == a.base_durability_cost_spec(),
        c != Condition::Sturdy && e.waste_not > 0 ==> a.durability_cost_spec(e, c)
            == a.base_durability_cost_spec() - a.base_durability_cost_spec() / 2,
        c == Condition::Sturdy && e.waste_not == 0 ==> a.durability_cost_spec(e, c) == (
        a.base_durability_cost_spec() + 1) / 2,
        c != Condition::Malleable ==> a.progress_increase_spec(e, c)
            == a.base_progress_increase_spec() + (if e.muscle_memory > 0 {
            a.base_progress_increase_spec()
        } else {
            0
        }) + (if e.veneration > 0 {
            a.base_progress_increase_spec() / 2
        } else {
            0
        }),
        c == Condition::Malleable && e.muscle_memory == 0 && e.veneration == 0
            ==> a.progress_increase_spec(e, c) == a.base_progress_increase_spec() * 3 / 2,
        a != Action::ByregotsBlessing && e.innovation == 0 && e.great_strides == 0 ==> a.quality_increase_spec(
            e,
            Condition::Normal,
        ) == a.base_quality_increase_spec() * (10 + e.inner_quiet) / 10,
        a == Action::ByregotsBlessing && e.innovation == 0 && e.great_strides == 0 ==> a.quality_increase_spec(
            e,
            Condition::Normal,
        ) == (a.base_quality_increase_spec() * (10 + 2 * e.inner_quiet) / 10) * (10 + e.inner_quiet)
            / 10,
        a != Action::ByregotsBlessing ==> a.quality_increase_spec(e, Condition::Normal) == {
            let b = a.base_quality_increase_spec() * (10 + e.inner_quiet) / 10;
            b + (if e.innovation != 0 {
                b / 2
            } else {
                0
            }) + (if e.great_strides != 0 {
                b
            } else {
                0
            })
        },
{
}

/// The combos: Combo Standard Touch follows Basic Touch, Combo Advanced Touch follows Combo
/// Standard Touch, Focused Synthesis and Focused Touch follow Observe, Muscle Memory and
/// Reflect open the craft, and no other action needs one; Basic Touch, Combo Standard Touch
/// and Observe start the combo after them, and no other action starts one.
pub proof fn lemma_combo_rules()
    ensures
        forall|a: Action| #[trigger] a.required_combo_spec() == (if a == Action::ComboStandardTouch {
            Some(ComboAction::BasicTouch)
        } else if a == Action::ComboAdvancedTouch {
            Some(ComboAction::StandardTouch)
        } else if a == Action::FocusedSynthesis || a == Action::FocusedTouch {
            Some(ComboAction::Observe)
        } else if a == Action::MuscleMemory || a == Action::Reflect {
            Some(ComboAction::SynthesisBegin)
        } else {
            None
        }),
        forall|a: Action| #[trigger] a.to_combo_spec() == (if a == Action::BasicTouch {
            Some(ComboAction::BasicTouch)
        } else if a == Action::ComboStandardTouch {
            Some(ComboAction::StandardTouch)
        } else if a == Action::Observe {
            Some(ComboAction::Observe)
        } else {
            None
        }),
{
    assert forall|a: Action| #[trigger] a.required_combo_spec() == (if a == Action::ComboStandardTouch {
            Some(ComboAction::BasicTouch)
        } else if a == Action::ComboAdvancedTouch {
            Some(ComboAction::StandardTouch)
        } else if a == Action::FocusedSynthesis || a == Action::FocusedTouch {
            Some(ComboAction::Observe)
        } else if a == Action::MuscleMemory || a == Action::Reflect {
            Some(ComboAction::SynthesisBegin)
        } else {
            None
        }) && a.to_combo_spec() == (if a == Action::BasicTouch {
            Some(ComboAction::BasicTouch)
        } else if a == Action::ComboStandardTouch {
            Some(ComboAction::StandardTouch)
        } else if a == Action::Observe {
            Some(ComboAction::Observe)
        } else {
            None
        }) by {
        match a {
            Action::BasicSynthesis => {},
            Action::BasicTouch => {},
            Action::MasterMend => {},
            Action::Observe => {},
            Action::TricksOfTheTrade => {},
            Action::WasteNot => {},
            Action::Veneration => {},
            Action::StandardTouch => {},
            Action::ComboStandardTouch => {},
            Action::GreatStrides => {},
            Action::Innovation => {},
            Action::WasteNot2 => {},
            Action::ByregotsBlessing => {},
            Action::PreciseTouch => {},
            Action::MuscleMemory => {},
            Action::CarefulSynthesis => {},
            Action::Manipulation => {},
            Action::PrudentTouch => {},
            Action::FocusedSynthesis => {},
            Action::FocusedTouch => {},
            Action::Reflect => {},
            Action::PreparatoryTouch => {},
            Action::Groundwork => {},
            Action::DelicateSynthesis => {},
            Action::IntensiveSynthesis => {},
            Action::AdvancedTouch => {},
            Action::ComboAdvancedTouch => {},
            Action::PrudentSynthesis => {},
            Action::TrainedFinesse => {},
        }
    }
}

} // verus!
