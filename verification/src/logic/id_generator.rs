//! Issues consecutive identifiers.

use vstd::prelude::*;

verus! {

/// Issues 0, 1, 2, ... and wraps around after `u32::MAX`.
#[derive(Debug)]
pub struct IdGenerator {
    counter: u32,
}

impl View for IdGenerator {
    type V = u32;

    /// The identifier that the next call issues.
    closed spec fn view(&self) -> u32 {
        self.counter
    }
}

impl IdGenerator {
    pub fn new() -> (r: IdGenerator)
        ensures
            r@ == 0,
    {
        IdGenerator { counter: 0 }
    }

    /// The next identifier.
    pub fn get_next_id(&mut self) -> (r: u32)
        ensures
            r == old(self)@,
            final(self)@ == old(self)@.wrapping_add(1),
    {
        let r = self.counter;
        self.counter = self.counter.wrapping_add(1);
        r
    }
}

} // verus!
