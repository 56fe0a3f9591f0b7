use vstd::prelude::*;

use crate::game::actions::Action;
use crate::game::units::CP;

verus! {

/// What a step of Waste Not is worth in CP: an eighth of Waste Not II.
pub const WASTE_NOT_COST: CP = 12;

/// What a step of Innovation is worth in CP: a quarter of its cost.
pub const INNOVATION_COST: CP = 4;

/// What a step of Veneration is worth in CP: a quarter of its cost.
pub const VENERATION_COST: CP = 4;

/// What Great Strides costs.
pub const GREAT_STRIDES_COST: CP = 32;

/// What a step of Manipulation is worth in CP: an eighth of its cost.
pub const MANIPULATION_COST: CP = 12;

/// What 5 durability are worth in CP: what Manipulation pays for them.
pub const DURABILITY_COST: CP = 12;

/// The costs above are those of the actions they stand for.
pub proof fn lemma_costs()
    ensures
        WASTE_NOT_COST == Action::WasteNot2.base_cp_cost_spec() / 8,
        INNOVATION_COST == Action::Innovation.base_cp_cost_spec() / 4,
        VENERATION_COST == Action::Veneration.base_cp_cost_spec() / 4,
        GREAT_STRIDES_COST == Action::GreatStrides.base_cp_cost_spec(),
        MANIPULATION_COST == Action::Manipulation.base_cp_cost_spec() / 8,
        DURABILITY_COST == Action::Manipulation.base_cp_cost_spec() / 8,
{
}

} // verus!
