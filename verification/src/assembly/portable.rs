//! A portable register file: an unbounded supply of virtual registers for
//! targets that have not pinned the instruction list to a concrete machine.

use vstd::prelude::*;

verus! {

/// A virtual register, identified by a dense integer.
#[derive(Debug, Clone, Copy, PartialEq, Eq, Structural)]
pub struct Register(pub usize);

/// Hands out fresh virtual registers.
#[derive(Debug, Clone, Copy, PartialEq, Eq, Structural)]
pub struct RegisterGenerator(pub usize);

impl RegisterGenerator {
    /// A generator that starts at register zero.
    pub fn new() -> (r: Self)
        ensures
            r.0 == 0,
    {
        RegisterGenerator(0)
    }

    /// The next fresh register.
    pub fn generate(&mut self) -> (r: Register)
        requires
            old(self).0 + 1 <= usize::MAX,
        ensures
            r.0 == old(self).0,
            final(self).0 == old(self).0 + 1,
    {
        let reg = Register(self.0);
        self.0 = self.0 + 1;
        reg
    }
}

} // verus!
