use vstd::prelude::*;

verus! {

/// The buffs active on the crafter; each counter is the number of steps it still lasts
/// (for `inner_quiet`, the number of stacks).
#[derive(Debug, Clone, Copy, PartialEq, Eq, Structural, Hash)]
pub struct Effects {
    pub inner_quiet: u8,
    pub waste_not: u8,
    pub innovation: u8,
    pub veneration: u8,
    pub great_strides: u8,
    pub muscle_memory: u8,
    pub manipulation: u8,
}

/// `x - 1`, or 0 when `x` is already 0.
pub open spec fn dec_sat(x: u8) -> u8 {
    if x == 0 {
        0
    } else {
        (x - 1) as u8
    }
}

impl Effects {
    /// No effect active.
    pub open spec fn none() -> Effects {
        Effects {
            inner_quiet: 0,
            waste_not: 0,
            innovation: 0,
            veneration: 0,
            great_strides: 0,
            muscle_memory: 0,
            manipulation: 0,
        }
    }

    /// The effects one step later: every timed effect loses one step; inner quiet stays.
    pub open spec fn ticked(self) -> Effects {
        Effects {
            inner_quiet: self.inner_quiet,
            waste_not: dec_sat(self.waste_not),
            innovation: dec_sat(self.innovation),
            veneration: dec_sat(self.veneration),
            great_strides: dec_sat(self.great_strides),
            muscle_memory: dec_sat(self.muscle_memory),
            manipulation: dec_sat(self.manipulation),
        }
    }

    pub fn tick_down(&mut self)
        ensures
            *final(self) == old(self).ticked(),
    {
        self.waste_not = self.waste_not.saturating_sub(1);
        self.innovation = self.innovation.saturating_sub(1);
        self.veneration = self.veneration.saturating_sub(1);
        self.great_strides = self.great_strides.saturating_sub(1);
        self.muscle_memory = self.muscle_memory.saturating_sub(1);
        self.manipulation = self.manipulation.saturating_sub(1);
    }
}

impl Default for Effects {
    fn default() -> (r: Self)
        ensures
            r == Effects::none(),
    {
        Effects {
            inner_quiet: 0,
            waste_not: 0,
            innovation: 0,
            veneration: 0,
            great_strides: 0,
            muscle_memory: 0,
            manipulation: 0,
        }
    }
}

} // verus!
