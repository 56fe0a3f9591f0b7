use vstd::prelude::*;

use crate::game::actions::{Action, NUM_ACTIONS};

verus! {

/// Bit `i` of `mask` is set.
pub open spec fn bit(mask: u64, i: u64) -> bool {
    (mask >> i) & 1 == 1
}

proof fn lemma_bit_or(a: u64, b: u64, i: u64)
    requires
        i < 64,
    ensures
        bit(a | b, i) == (bit(a, i) || bit(b, i)),
{
    assert(((a | b) >> i) & 1 == 1 <==> ((a >> i) & 1 == 1 || (b >> i) & 1 == 1)) by (bit_vector)
        requires
            i < 64,
    ;
}

proof fn lemma_bit_and(a: u64, b: u64, i: u64)
    requires
        i < 64,
    ensures
        bit(a & b, i) == (bit(a, i) && bit(b, i)),
{
    assert(((a & b) >> i) & 1 == 1 <==> ((a >> i) & 1 == 1 && (b >> i) & 1 == 1)) by (bit_vector)
        requires
            i < 64,
    ;
}

proof fn lemma_bit_single(j: u64, i: u64)
    requires
        i < 64,
        j < 64,
    ensures
        bit(1u64 << j, i) == (i == j),
{
    assert((((1u64 << j) >> i) & 1 == 1) <==> (i == j)) by (bit_vector)
        requires
            i < 64,
            j < 64,
    ;
}

proof fn lemma_bit_zero(i: u64)
    requires
        i < 64,
    ensures
        !bit(0, i),
{
    assert(((0u64 >> i) & 1) == 0) by (bit_vector);
}

/// A set of actions, one bit per action.
#[derive(Debug, Clone, Copy, PartialEq, Eq, Structural, Hash)]
pub struct ActionMask {
    pub mask: u64,
}

impl View for ActionMask {
    type V = Set<Action>;

    open spec fn view(&self) -> Set<Action> {
        Set::new(|a: Action| bit(self.mask, a.index_spec()))
    }
}

/// The actions of `set` among the first `n` actions, in the order of the list of all actions.
pub open spec fn actions_upto(set: Set<Action>, n: u64) -> Seq<Action>
    decreases n,
{
    if n == 0 {
        Seq::empty()
    } else {
        let prev = actions_upto(set, (n - 1) as u64);
        if set.contains(Action::from_index_spec((n - 1) as u64)) {
            prev.push(Action::from_index_spec((n - 1) as u64))
        } else {
            prev
        }
    }
}

impl ActionMask {
    /// The empty set of actions.
    pub fn new() -> (r: Self)
        ensures
            r@ == Set::<Action>::empty(),
    {
        let r = Self { mask: 0 };
        proof {
            assert forall|a: Action| !r@.contains(a) by {
                Action::lemma_index_bound(a);
                lemma_bit_zero(a.index_spec());
            }
            assert(r@ =~= Set::<Action>::empty());
        }
        r
    }

    /// The empty set of actions.
    pub fn none() -> (r: Self)
        ensures
            r@ == Set::<Action>::empty(),
    {
        Self::new()
    }

    /// The set with `action` added.
    pub fn add(self, action: Action) -> (r: Self)
        ensures
            r@ == self@.insert(action),
    {
        proof {
            Action::lemma_index_bound(action);
        }
        let r = Self { mask: self.mask | (1u64 << action.index()) };
        proof {
            assert forall|a: Action| r@.contains(a) == self@.insert(action).contains(a) by {
                Action::lemma_index_bound(a);
                Action::lemma_index_injective(a, action);
                lemma_bit_or(self.mask, 1u64 << action.index_spec(), a.index_spec());
                lemma_bit_single(action.index_spec(), a.index_spec());
            }
            assert(r@ =~= self@.insert(action));
        }
        r
    }

    /// The actions in either set.
    pub fn union(self, other: Self) -> (r: Self)
        ensures
            r@ == self@.union(other@),
    {
        let r = Self { mask: self.mask | other.mask };
        proof {
            assert forall|a: Action| r@.contains(a) == self@.union(other@).contains(a) by {
                Action::lemma_index_bound(a);
                lemma_bit_or(self.mask, other.mask, a.index_spec());
            }
            assert(r@ =~= self@.union(other@));
        }
        r
    }

    /// The actions in both sets.
    pub fn intersection(self, other: Self) -> (r: Self)
        ensures
            r@ == self@.intersect(other@),
    {
        let r = Self { mask: self.mask & other.mask };
        proof {
            assert forall|a: Action| r@.contains(a) == self@.intersect(other@).contains(a) by {
                Action::lemma_index_bound(a);
                lemma_bit_and(self.mask, other.mask, a.index_spec());
            }
            assert(r@ =~= self@.intersect(other@));
        }
        r
    }

    /// `true` when `action` belongs to the set.
    pub fn has(self, action: Action) -> (r: bool)
        ensures
            r == self@.contains(action),
    {
        (self.mask >> action.index()) & 1 == 1
    }

    /// The actions of the set, in the order of the list of all actions.
    pub fn actions(self) -> (r: Vec<Action>)
        ensures
            r@ == actions_upto(self@, NUM_ACTIONS),
    {
        let mut result: Vec<Action> = Vec::new();
        let mut i: u64 = 0;
        while i < NUM_ACTIONS
            invariant
                i <= NUM_ACTIONS,
                result@ == actions_upto(self@, i),
            decreases NUM_ACTIONS - i,
        {
            let action = Action::from_index(i);
            if self.has(action) {
                result.push(action);
            }
            i = i + 1;
        }
        result
    }

    /// The actions of the set, in the order of the list of all actions.
    pub fn actions_iter(self) -> (r: Vec<Action>)
        ensures
            r@ == actions_upto(self@, NUM_ACTIONS),
    {
        self.actions()
    }

    /// The actions that a crafter of level `level` has learnt; Manipulation only when
    /// `manipulation` is set.
    pub fn from_level(level: u32, manipulation: bool) -> (r: Self)
        ensures
            forall|a: Action| #[trigger]
                r@.contains(a) == (a.level_requirement_spec() <= level && (a
                    == Action::Manipulation ==> manipulation)),
    {
        let mut result = Self::new();
        let mut i: u64 = 0;
        while i < NUM_ACTIONS
            invariant
                i <= NUM_ACTIONS,
                forall|a: Action| #[trigger]
                    result@.contains(a) == (a.index_spec() < i && a.level_requirement_spec()
                        <= level && (a == Action::Manipulation ==> manipulation)),
            decreases NUM_ACTIONS - i,
        {
            let action = Action::from_index(i);
            if action.level_requirement() <= level && (action != Action::Manipulation
                || manipulation) {
                result = result.add(action);
            }
            proof {
                assert forall|a: Action| #[trigger]
                    result@.contains(a) == (a.index_spec() < i + 1 && a.level_requirement_spec()
                        <= level && (a == Action::Manipulation ==> manipulation)) by {
                    Action::lemma_index_injective(a, action);
                }
            }
            i = i + 1;
        }
        proof {
            assert forall|a: Action| #[trigger] result@.contains(a) == (a.level_requirement_spec() <= level
                && (a == Action::Manipulation ==> manipulation)) by {
                Action::lemma_index_bound(a);
            }
        }
        result
    }
}

/// Every action of a set is listed by `actions`, and only those.
pub proof fn lemma_actions_upto_members(set: Set<Action>, n: u64, a: Action)
    requires
        n <= NUM_ACTIONS,
    ensures
        actions_upto(set, n).contains(a) == (set.contains(a) && a.index_spec() < n),
        actions_upto(set, n).len() <= n,
    decreases n,
{
    if n > 0 {
        lemma_actions_upto_members(set, (n - 1) as u64, a);
        Action::lemma_from_index((n - 1) as u64);
        Action::lemma_index_injective(a, Action::from_index_spec((n - 1) as u64));
        Action::lemma_index_bound(a);
        let prev = actions_upto(set, (n - 1) as u64);
        let x = Action::from_index_spec((n - 1) as u64);
        if set.contains(x) {
            assert(prev.push(x)[prev.len() as int] == x);
            if prev.push(x).contains(a) {
                let k = choose|k: int| 0 <= k < prev.push(x).len() && prev.push(x)[k] == a;
                if k < prev.len() {
                    assert(prev[k] == a);
                }
            }
            if prev.contains(a) {
                let k = choose|k: int| 0 <= k < prev.len() && prev[k] == a;
                assert(prev.push(x)[k] == a);
            }
        }
    }
}

/// The actions that only raise progress, and those that make them stronger.
pub open spec fn progress_action_set() -> Set<Action> {
    set![Action::BasicSynthesis, Action::Observe, Action::Veneration, Action::MuscleMemory, Action::CarefulSynthesis, Action::FocusedSynthesis, Action::Groundwork, Action::PrudentSynthesis]
}

/// The actions that only raise progress, and those that make them stronger.
pub fn progress_actions() -> (r: ActionMask)
    ensures
        r@ == progress_action_set(),
{
        let mask = ActionMask::new()
            .add(Action::BasicSynthesis)
            .add(Action::Observe)
            .add(Action::Veneration)
            .add(Action::MuscleMemory)
            .add(Action::CarefulSynthesis)
            .add(Action::FocusedSynthesis)
            .add(Action::Groundwork)
            .add(Action::PrudentSynthesis);
        assert(mask@ =~= progress_action_set());
        mask
}

/// The actions that only raise quality, and those that make them stronger.
pub open spec fn quality_action_set() -> Set<Action> {
    set![Action::BasicTouch, Action::Observe, Action::StandardTouch, Action::ComboStandardTouch, Action::GreatStrides, Action::Innovation, Action::ByregotsBlessing, Action::PrudentTouch, Action::FocusedTouch, Action::Reflect, Action::PreparatoryTouch, Action::AdvancedTouch, Action::ComboAdvancedTouch, Action::TrainedFinesse]
}

/// The actions that only raise quality, and those that make them stronger.
pub fn quality_actions() -> (r: ActionMask)
    ensures
        r@ == quality_action_set(),
{
        let mask = ActionMask::new()
            .add(Action::BasicTouch)
            .add(Action::Observe)
            .add(Action::StandardTouch)
            .add(Action::ComboStandardTouch)
            .add(Action::GreatStrides)
            .add(Action::Innovation)
            .add(Action::ByregotsBlessing)
            .add(Action::PrudentTouch)
            .add(Action::FocusedTouch)
            .add(Action::Reflect)
            .add(Action::PreparatoryTouch)
            .add(Action::AdvancedTouch)
            .add(Action::ComboAdvancedTouch)
            .add(Action::TrainedFinesse);
        assert(mask@ =~= quality_action_set());
        mask
}

/// The actions that raise both progress and quality.
pub open spec fn mixed_action_set() -> Set<Action> {
    set![Action::DelicateSynthesis]
}

/// The actions that raise both progress and quality.
pub fn mixed_actions() -> (r: ActionMask)
    ensures
        r@ == mixed_action_set(),
{
        let mask = ActionMask::new()
            .add(Action::DelicateSynthesis);
        assert(mask@ =~= mixed_action_set());
        mask
}

/// The actions that restore or save durability.
pub open spec fn durability_action_set() -> Set<Action> {
    set![Action::MasterMend, Action::WasteNot, Action::WasteNot2, Action::Manipulation]
}

/// The actions that restore or save durability.
pub fn durability_actions() -> (r: ActionMask)
    ensures
        r@ == durability_action_set(),
{
        let mask = ActionMask::new()
            .add(Action::MasterMend)
            .add(Action::WasteNot)
            .add(Action::WasteNot2)
            .add(Action::Manipulation);
        assert(mask@ =~= durability_action_set());
        mask
}

/// The progress actions are the actions that raise progress and not quality, but Intensive
/// Synthesis (which needs a good condition), with the two that make them stronger: Observe
/// (which opens Focused Synthesis) and Veneration.
pub proof fn lemma_progress_actions_raise_progress()
    ensures
        forall|a: Action|
            #[trigger] progress_action_set().contains(a) <==> ((a.base_progress_increase_spec() > 0
                && a.base_quality_increase_spec() == 0 && a != Action::IntensiveSynthesis) || a
                == Action::Observe || a == Action::Veneration),
{
    assert forall|a: Action|
        #[trigger] progress_action_set().contains(a) <==> ((a.base_progress_increase_spec() > 0
            && a.base_quality_increase_spec() == 0 && a != Action::IntensiveSynthesis) || a
            == Action::Observe || a == Action::Veneration) by {
        match a {
            Action::BasicSynthesis => {},
            Action::BasicTouch => {},
            Action::MasterMend => {},
            Action::Observe => {},
            Action::TricksOfTheTrade => {},
            Action::WasteNot => {},
            Action::Veneration => {},
            Action::StandardTouch => {},
            Action::ComboStandardTouch => {},
            Action::GreatStrides => {},
            Action::Innovation => {},
            Action::WasteNot2 => {},
            Action::ByregotsBlessing => {},
            Action::PreciseTouch => {},
            Action::MuscleMemory => {},
            Action::CarefulSynthesis => {},
            Action::Manipulation => {},
            Action::PrudentTouch => {},
            Action::FocusedSynthesis => {},
            Action::FocusedTouch => {},
            Action::Reflect => {},
            Action::PreparatoryTouch => {},
            Action::Groundwork => {},
            Action::DelicateSynthesis => {},
            Action::IntensiveSynthesis => {},
            Action::AdvancedTouch => {},
            Action::ComboAdvancedTouch => {},
            Action::PrudentSynthesis => {},
            Action::TrainedFinesse => {},
        }
    }
}

/// The quality actions are the actions that raise quality and not progress, but Precise Touch
/// (which needs a good condition), with the three that make them stronger: Observe (which
/// opens Focused Touch), Great Strides and Innovation.
pub proof fn lemma_quality_actions_raise_quality()
    ensures
        forall|a: Action|
            #[trigger] quality_action_set().contains(a) <==> ((a.base_quality_increase_spec() > 0
                && a.base_progress_increase_spec() == 0 && a != Action::PreciseTouch) || a
                == Action::Observe || a == Action::GreatStrides || a == Action::Innovation),
{
    assert forall|a: Action|
        #[trigger] quality_action_set().contains(a) <==> ((a.base_quality_increase_spec() > 0
            && a.base_progress_increase_spec() == 0 && a != Action::PreciseTouch) || a
            == Action::Observe || a == Action::GreatStrides || a == Action::Innovation) by {
        match a {
            Action::BasicSynthesis => {},
            Action::BasicTouch => {},
            Action::MasterMend => {},
            Action::Observe => {},
            Action::TricksOfTheTrade => {},
            Action::WasteNot => {},
            Action::Veneration => {},
            Action::StandardTouch => {},
            Action::ComboStandardTouch => {},
            Action::GreatStrides => {},
            Action::Innovation => {},
            Action::WasteNot2 => {},
            Action::ByregotsBlessing => {},
            Action::PreciseTouch => {},
            Action::MuscleMemory => {},
            Action::CarefulSynthesis => {},
            Action::Manipulation => {},
            Action::PrudentTouch => {},
            Action::FocusedSynthesis => {},
            Action::FocusedTouch => {},
            Action::Reflect => {},
            Action::PreparatoryTouch => {},
            Action::Groundwork => {},
            Action::DelicateSynthesis => {},
            Action::IntensiveSynthesis => {},
            Action::AdvancedTouch => {},
            Action::ComboAdvancedTouch => {},
            Action::PrudentSynthesis => {},
            Action::TrainedFinesse => {},
        }
    }
}

/// The mixed actions are those that raise both progress and quality.
pub proof fn lemma_mixed_actions_raise_both()
    ensures
        forall|a: Action|
            #[trigger] mixed_action_set().contains(a) <==> (a.base_progress_increase_spec() > 0
                && a.base_quality_increase_spec() > 0),
{
    assert forall|a: Action|
        #[trigger] mixed_action_set().contains(a) <==> (a.base_progress_increase_spec() > 0
            && a.base_quality_increase_spec() > 0) by {
        match a {
            Action::BasicSynthesis => {},
            Action::BasicTouch => {},
            Action::MasterMend => {},
            Action::Observe => {},
            Action::TricksOfTheTrade => {},
            Action::WasteNot => {},
            Action::Veneration => {},
            Action::StandardTouch => {},
            Action::ComboStandardTouch => {},
            Action::GreatStrides => {},
            Action::Innovation => {},
            Action::WasteNot2 => {},
            Action::ByregotsBlessing => {},
            Action::PreciseTouch => {},
            Action::MuscleMemory => {},
            Action::CarefulSynthesis => {},
            Action::Manipulation => {},
            Action::PrudentTouch => {},
            Action::FocusedSynthesis => {},
            Action::FocusedTouch => {},
            Action::Reflect => {},
            Action::PreparatoryTouch => {},
            Action::Groundwork => {},
            Action::DelicateSynthesis => {},
            Action::IntensiveSynthesis => {},
            Action::AdvancedTouch => {},
            Action::ComboAdvancedTouch => {},
            Action::PrudentSynthesis => {},
            Action::TrainedFinesse => {},
        }
    }
}

/// The durability actions are the two that restore durability (Master's Mend and
/// Manipulation) and the two that halve its use (Waste Not and Waste Not II); none of them
/// raises progress or quality or uses durability.
pub proof fn lemma_durability_actions()
    ensures
        durability_action_set() == set![
            Action::MasterMend,
            Action::Manipulation,
            Action::WasteNot,
            Action::WasteNot2,
        ],
        forall|a: Action|
            #[trigger] durability_action_set().contains(a) ==> a.base_progress_increase_spec() == 0
                && a.base_quality_increase_spec() == 0 && a.base_durability_cost_spec() == 0,
{
    assert(durability_action_set() =~= set![
        Action::MasterMend,
        Action::Manipulation,
        Action::WasteNot,
        Action::WasteNot2,
    ]);
}

} // verus!
