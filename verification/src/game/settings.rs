use vstd::prelude::*;

use crate::game::units::{Durability, Progress, Quality, CP};
use crate::solvers::actions::ActionMask;

verus! {

/// The parameters of a craft: the crafter's CP, the item's durability, the progress that
/// completes it, the quality that maxes it, and the actions the crafter may use.
#[derive(Debug, Clone, Copy, PartialEq, Eq, Hash)]
pub struct Settings {
    pub max_cp: CP,
    pub max_durability: Durability,
    pub max_progress: Progress,
    pub max_quality: Quality,
    pub allowed_actions: ActionMask,
}

impl Settings {
    /// Settings under which no action can overflow a counter: some CP and durability, and
    /// room above the maxima for the restoring actions (+20 CP, +30 durability).
    pub open spec fn is_valid(self) -> bool {
        &&& 0 <= self.max_cp
        &&& self.max_cp + 20 <= i16::MAX
        &&& 0 < self.max_durability
        &&& self.max_durability + 30 <= i8::MAX
    }
}

} // verus!
