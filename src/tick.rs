//! Change ticks: the values of the store's global change counter.

use vstd::prelude::*;

verus! {

/// A value of the store's change counter, advanced once per run cycle.
#[derive(Clone, Copy, Debug, PartialEq, Eq, Structural)]
pub struct Tick {
    tick: u32,
}

impl View for Tick {
    type V = u32;

    closed spec fn view(&self) -> u32 {
        self.tick
    }
}

impl Tick {
    pub fn new(tick: u32) -> (r: Tick)
        ensures
            r@ == tick,
    {
        Tick { tick }
    }

    /// The counter value.
    pub fn get(&self) -> (r: u32)
        ensures
            r == self@,
    {
        self.tick
    }

    /// Replaces the counter value.
    pub fn set(&mut self, tick: u32)
        ensures
            final(self)@ == tick,
    {
        self.tick = tick;
    }
}

} // verus!
