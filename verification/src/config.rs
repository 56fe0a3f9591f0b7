use vstd::prelude::*;

verus! {

/// Where the initial quality comes from: the number of high-quality ingredients of each kind,
/// or a value given directly.
#[derive(Debug, Clone, Copy, PartialEq, Eq)]
pub enum QualitySource {
    HqMaterialList([u8; 6]),
    Value(u16),
}

/// Settings of the application itself; `num_threads` is `None` for the default thread count.
#[derive(Debug, Clone, Copy, PartialEq, Eq)]
pub struct AppConfig {
    pub zoom_percentage: u16,
    pub num_threads: Option<usize>,
}

impl AppConfig {
    /// A thread count, when there is one, is not zero.
    pub open spec fn is_valid(self) -> bool {
        self.num_threads matches Some(n) ==> n > 0
    }
}

impl Default for AppConfig {
    fn default() -> (r: Self)
        ensures
            r.zoom_percentage == 100,
            r.num_threads is None,
            r.is_valid(),
    {
        Self { zoom_percentage: 100, num_threads: None }
    }
}

/// The quality that the solver aims for.
#[derive(Debug, Clone, Copy, PartialEq, Eq, Structural)]
pub enum QualityTarget {
    Zero,
    Half,
    CollectableT1,
    CollectableT2,
    CollectableT3,
    Full,
    Custom(u16),
}

impl Default for QualityTarget {
    fn default() -> (r: Self)
        ensures
            r == QualityTarget::Full,
    {
        QualityTarget::Full
    }
}

impl QualityTarget {
    /// The target for an item of maximum quality `max_quality`: 0%, 50%, 55%, 75%, 95% or 100%
    /// of it (rounded down), or the custom value.
    pub open spec fn get_target_spec(self, max_quality: u16) -> int {
        match self {
            QualityTarget::Zero => 0,
            QualityTarget::Half => (max_quality / 2) as int,
            QualityTarget::CollectableT1 => max_quality * 55 / 100,
            QualityTarget::CollectableT2 => max_quality * 75 / 100,
            QualityTarget::CollectableT3 => max_quality * 95 / 100,
            QualityTarget::Full => max_quality as int,
            QualityTarget::Custom(quality) => quality as int,
        }
    }

    pub fn get_target(self, max_quality: u16) -> (r: u16)
        ensures
            r == self.get_target_spec(max_quality),
    {
        match self {
            QualityTarget::Zero => 0,
            QualityTarget::Half => max_quality / 2,
            QualityTarget::CollectableT1 => (max_quality as u32 * 55 / 100) as u16,
            QualityTarget::CollectableT2 => (max_quality as u32 * 75 / 100) as u16,
            QualityTarget::CollectableT3 => (max_quality as u32 * 95 / 100) as u16,
            QualityTarget::Full => max_quality,
            QualityTarget::Custom(quality) => quality,
        }
    }
}

/// Every target but a custom one lies between 0 and the maximum quality, and the targets grow
/// from `Zero` to `Full`.
pub proof fn lemma_target_bounds(max_quality: u16)
    ensures
        QualityTarget::Zero.get_target_spec(max_quality) <= QualityTarget::Half.get_target_spec(
            max_quality,
        ),
        QualityTarget::Half.get_target_spec(max_quality)
            <= QualityTarget::CollectableT1.get_target_spec(max_quality),
        QualityTarget::CollectableT1.get_target_spec(max_quality)
            <= QualityTarget::CollectableT2.get_target_spec(max_quality),
        QualityTarget::CollectableT2.get_target_spec(max_quality)
            <= QualityTarget::CollectableT3.get_target_spec(max_quality),
        QualityTarget::CollectableT3.get_target_spec(max_quality)
            <= QualityTarget::Full.get_target_spec(max_quality),
        QualityTarget::Full.get_target_spec(max_quality) == max_quality,
        0 <= QualityTarget::Zero.get_target_spec(max_quality),
{
    let m = max_quality as int;
    assert(m / 2 <= m * 55 / 100) by (nonlinear_arith)
        requires
            m >= 0,
    ;
    assert(m * 55 / 100 <= m * 75 / 100) by (nonlinear_arith)
        requires
            m >= 0,
    ;
    assert(m * 75 / 100 <= m * 95 / 100) by (nonlinear_arith)
        requires
            m >= 0,
    ;
    assert(m * 95 / 100 <= m) by (nonlinear_arith)
        requires
            m >= 0,
    ;
}

/// Each fixed target is its share of the maximum quality, rounded down: 0%, 50%, 55%, 75%,
/// 95% and 100%; a custom target is the value given.
pub proof fn lemma_target_shares(max_quality: u16, custom: u16)
    ensures
        QualityTarget::Zero.get_target_spec(max_quality) == 0,
        2 * QualityTarget::Half.get_target_spec(max_quality) <= max_quality < 2 * (
        QualityTarget::Half.get_target_spec(max_quality) + 1),
        100 * QualityTarget::CollectableT1.get_target_spec(max_quality) <= 55 * max_quality < 100 * (
        QualityTarget::CollectableT1.get_target_spec(max_quality) + 1),
        100 * QualityTarget::CollectableT2.get_target_spec(max_quality) <= 75 * max_quality < 100 * (
        QualityTarget::CollectableT2.get_target_spec(max_quality) + 1),
        100 * QualityTarget::CollectableT3.get_target_spec(max_quality) <= 95 * max_quality < 100 * (
        QualityTarget::CollectableT3.get_target_spec(max_quality) + 1),
        QualityTarget::Full.get_target_spec(max_quality) == max_quality,
        QualityTarget::Custom(custom).get_target_spec(max_quality) == custom,
{
    let m = max_quality as int;
    assert(100 * (m * 55 / 100) <= 55 * m < 100 * (m * 55 / 100 + 1)) by (nonlinear_arith)
        requires
            m >= 0,
    ;
    assert(100 * (m * 75 / 100) <= 75 * m < 100 * (m * 75 / 100 + 1)) by (nonlinear_arith)
        requires
            m >= 0,
    ;
    assert(100 * (m * 95 / 100) <= 95 * m < 100 * (m * 95 / 100 + 1)) by (nonlinear_arith)
        requires
            m >= 0,
    ;
}

} // verus!
