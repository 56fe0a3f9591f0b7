use vstd::prelude::*;

use crate::config::QualityTarget;

verus! {

/// The options of a solve: the quality to aim for, whether progress is left to the end, and
/// whether conditions are assumed to go against the crafter.
#[derive(Debug, Clone, Copy, PartialEq, Eq, Structural)]
pub struct SolverConfig {
    pub quality_target: QualityTarget,
    pub backload_progress: bool,
    pub adversarial: bool,
}

impl Default for SolverConfig {
    fn default() -> (r: Self)
        ensures
            r == (SolverConfig {
                quality_target: QualityTarget::Full,
                backload_progress: false,
                adversarial: false,
            }),
    {
        SolverConfig {
            quality_target: QualityTarget::Full,
            backload_progress: false,
            adversarial: false,
        }
    }
}

} // verus!
