use vstd::prelude::*;

verus! {

/// A fixed-point number: the stored integer `inner_value` stands for `inner_value / C`.
///
/// Progress and quality are kept in this form so that the fractional bonuses of the
/// game rules (halves, tenths) are computed exactly on integers.
#[derive(Clone, Copy, PartialEq, Eq, PartialOrd, Ord, Hash, Default, Debug)]
pub struct ScaledU32<const C: u32> {
    pub inner_value: u32,
}

impl<const C: u32> ScaledU32<C> {
    /// The whole value `value`, stored as `value * C`.
    pub fn new(value: u32) -> (r: Self)
        requires
            value * C <= u32::MAX,
        ensures
            r.inner_value == value * C,
    {
        Self { inner_value: value * C }
    }

    pub fn add(self, other: Self) -> (r: Self)
        requires
            self.inner_value + other.inner_value <= u32::MAX,
        ensures
            r.inner_value == self.inner_value + other.inner_value,
    {
        Self { inner_value: self.inner_value + other.inner_value }
    }

    pub fn sub(self, other: Self) -> (r: Self)
        requires
            other.inner_value <= self.inner_value,
        ensures
            r.inner_value == self.inner_value - other.inner_value,
    {
        Self { inner_value: self.inner_value - other.inner_value }
    }

    pub fn saturating_sub(self, other: Self) -> (r: Self)
        ensures
            r.inner_value == if other.inner_value <= self.inner_value {
                self.inner_value - other.inner_value
            } else {
                0
            },
    {
        if other.inner_value <= self.inner_value {
            Self { inner_value: self.inner_value - other.inner_value }
        } else {
            Self { inner_value: 0 }
        }
    }

    pub fn saturating_add(self, other: Self) -> (r: Self)
        ensures
            r.inner_value == if self.inner_value + other.inner_value <= u32::MAX {
                self.inner_value + other.inner_value
            } else {
                u32::MAX as int
            },
    {
        if other.inner_value <= u32::MAX - self.inner_value {
            Self { inner_value: self.inner_value + other.inner_value }
        } else {
            Self { inner_value: u32::MAX }
        }
    }

    /// Multiplies by the fraction `mul / div`, rounding down.
    pub fn scale(self, mul: u32, div: u32) -> (r: Self)
        requires
            div > 0,
            self.inner_value * mul <= u32::MAX,
        ensures
            r.inner_value == (self.inner_value * mul) / (div as int),
    {
        Self { inner_value: self.inner_value * mul / div }
    }
}

/// Adding a value and taking it away again gives back the value one started from.
pub proof fn lemma_add_then_sub<const C: u32>(a: ScaledU32<C>, b: ScaledU32<C>)
    requires
        a.inner_value + b.inner_value <= u32::MAX,
    ensures
        ({
            let s = ScaledU32::<C> { inner_value: (a.inner_value + b.inner_value) as u32 };
            &&& s.inner_value - b.inner_value == a.inner_value
            &&& (if b.inner_value <= s.inner_value { s.inner_value - b.inner_value } else { 0 }) == a.inner_value
        }),
{
}

} // verus!
