use vstd::prelude::*;

verus! {

/// A progress amount kept in twentieths of a potency point.
#[derive(Clone, Copy, PartialEq, Eq, PartialOrd, Ord, Hash, Debug)]
pub struct Progress {
    pub value: u32,
}

impl Progress {
    /// Multiplies by the fraction `mul / div`, rounding down.
    pub fn scale(self, mul: u32, div: u32) -> (r: Self)
        requires
            div > 0,
            self.value * mul <= u32::MAX,
        ensures
            r.value == (self.value * mul) / (div as int),
    {
        Self { value: self.value * mul / div }
    }

    /// The progress of `value` whole potency points.
    pub fn from_const(value: u32) -> (r: Self)
        requires
            value * 20 <= u32::MAX,
        ensures
            r.value == value * 20,
    {
        Self { value: value * 20 }
    }

    pub fn is_zero(self) -> (r: bool)
        ensures
            r == (self.value == 0),
    {
        self.value == 0
    }
}

} // verus!
