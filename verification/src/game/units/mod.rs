use vstd::prelude::*;

pub mod progress;
pub mod scaled_integer;

verus! {

/// Progress values, kept in twentieths of a potency point.
pub type Progress = scaled_integer::ScaledU32<20>;

/// Quality values, kept in eight-hundredths of a potency point.
pub type Quality = scaled_integer::ScaledU32<800>;

pub type CP = i16;

pub type Durability = i8;

} // verus!
