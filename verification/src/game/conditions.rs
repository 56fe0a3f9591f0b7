use vstd::prelude::*;

verus! {

/// The condition of the item during a step of the craft.
#[derive(Debug, Clone, Copy, PartialEq, Eq, Structural, Hash)]
pub enum Condition {
    Normal,
    Good,
    Excellent,
    Poor,
    Sturdy,
    Pliant,
    Malleable,
}

} // verus!
