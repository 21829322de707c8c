//! The x86-64 integer register file.

use vstd::prelude::*;

verus! {

/// One of the sixteen 64-bit integer registers.
#[derive(Debug, Clone, Copy, PartialEq, Eq, Structural)]
pub enum Register {
    Ax,
    Cx,
    Dx,
    Bx,
    Sp,
    Bp,
    Si,
    Di,
    R8,
    R9,
    R10,
    R11,
    R12,
    R13,
    R14,
    R15,
}

/// The three-bit code of a register inside ModR/M, SIB or an `opcode+rd`
/// form; `R8`..`R15` share codes with the base eight and are told apart by a
/// REX extension bit.
pub open spec fn spec_encode(r: Register) -> u8 {
    match r {
        Register::Ax | Register::R8 => 0,
        Register::Cx | Register::R9 => 1,
        Register::Dx | Register::R10 => 2,
        Register::Bx | Register::R11 => 3,
        Register::Sp | Register::R12 => 4,
        Register::Bp | Register::R13 => 5,
        Register::Si | Register::R14 => 6,
        Register::Di | Register::R15 => 7,
    }
}

/// Does the register need a REX extension bit?
pub open spec fn spec_needs_extension(r: Register) -> bool {
    match r {
        Register::Ax | Register::Cx | Register::Dx | Register::Bx | Register::Sp
            | Register::Bp | Register::Si | Register::Di => false,
        Register::R8 | Register::R9 | Register::R10 | Register::R11 | Register::R12
            | Register::R13 | Register::R14 | Register::R15 => true,
    }
}

impl Register {
    /// The three-bit register code.
    pub fn encode(self) -> (r: u8)
        ensures
            r == spec_encode(self),
            r < 8,
    {
        match self {
            Register::Ax | Register::R8 => 0,
            Register::Cx | Register::R9 => 1,
            Register::Dx | Register::R10 => 2,
            Register::Bx | Register::R11 => 3,
            Register::Sp | Register::R12 => 4,
            Register::Bp | Register::R13 => 5,
            Register::Si | Register::R14 => 6,
            Register::Di | Register::R15 => 7,
        }
    }

    /// Does the register need a REX extension bit?
    pub fn needs_extension(self) -> (r: bool)
        ensures
            r == spec_needs_extension(self),
    {
        match self {
            Register::Ax | Register::Cx | Register::Dx | Register::Bx | Register::Sp
                | Register::Bp | Register::Si | Register::Di => false,
            Register::R8 | Register::R9 | Register::R10 | Register::R11 | Register::R12
                | Register::R13 | Register::R14 | Register::R15 => true,
        }
    }
}

} // verus!
