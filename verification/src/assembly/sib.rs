//! Builder for the SIB byte.
//!
//! The byte is `scale(2) | index(3) | base(3)`, describing the effective
//! address `scale * index + base`. Each field must be set exactly once
//! before the byte is produced; ghost flags carry that discipline through
//! the contracts.

use vstd::prelude::*;

use crate::assembly::mod_rm::{field_or_zero, lemma_u8_or_basics};
use crate::assembly::register::{spec_encode, Register};

verus! {

/// Valid scale factors.
#[derive(Debug, Clone, Copy, PartialEq, Eq, Structural)]
pub enum Scale {
    One,
    Two,
    Four,
    Eight,
}

/// The two-bit code of a scale factor.
pub open spec fn scale_bits(s: Scale) -> u8 {
    match s {
        Scale::One => 0b00,
        Scale::Two => 0b01,
        Scale::Four => 0b10,
        Scale::Eight => 0b11,
    }
}

/// The SIB byte for the given field values.
pub open spec fn sib_byte(scale: u8, index: u8, base: u8) -> u8 {
    ((scale << 6) | ((index & 7) << 3)) | (base & 7)
}

/// Accumulates the SIB byte field by field.
pub struct SibBuilder {
    byte: u8,
    scale: Ghost<Option<u8>>,
    index: Ghost<Option<u8>>,
    base: Ghost<Option<u8>>,
}

impl SibBuilder {
    /// The scale contribution, if set.
    pub closed spec fn spec_scale(self) -> Option<u8> {
        self.scale@
    }

    /// The index contribution, if set.
    pub closed spec fn spec_index(self) -> Option<u8> {
        self.index@
    }

    /// The base contribution, if set.
    pub closed spec fn spec_base(self) -> Option<u8> {
        self.base@
    }

    /// The byte accumulated so far matches the fields set so far.
    pub closed spec fn inv(self) -> bool {
        self.byte == ((field_or_zero(self.scale@) | field_or_zero(self.index@))
            | field_or_zero(self.base@))
    }

    /// A builder with all three fields blank.
    pub fn new() -> (r: Self)
        ensures
            r.inv(),
            r.spec_scale() is None,
            r.spec_index() is None,
            r.spec_base() is None,
    {
        let r = SibBuilder { byte: 0, scale: Ghost(None), index: Ghost(None), base: Ghost(None) };
        proof {
            lemma_u8_or_basics();
        }
        r
    }

    /// Set the scale factor.
    pub fn scale(self, scale: Scale) -> (r: Self)
        requires
            self.inv(),
            self.spec_scale() is None,
        ensures
            r.inv(),
            r.spec_scale() == Some(scale_bits(scale) << 6),
            r.spec_index() == self.spec_index(),
            r.spec_base() == self.spec_base(),
    {
        let bits: u8 = match scale {
            Scale::One => 0b00,
            Scale::Two => 0b01,
            Scale::Four => 0b10,
            Scale::Eight => 0b11,
        };
        let byte = self.byte | (bits << 6);
        proof {
            lemma_u8_or_basics();
        }
        SibBuilder { byte, scale: Ghost(Some(scale_bits(scale) << 6)), index: self.index, base: self.base }
    }

    /// Set the `index` field from a register.
    ///
    /// With `rsp` as the argument the effective index is zero.
    pub fn index(self, reg: Register) -> (r: Self)
        requires
            self.inv(),
            self.spec_index() is None,
        ensures
            r.inv(),
            r.spec_scale() == self.spec_scale(),
            r.spec_index() == Some((spec_encode(reg) & 7) << 3),
            r.spec_base() == self.spec_base(),
    {
        let byte = self.byte | ((reg.encode() & 7) << 3);
        proof {
            lemma_u8_or_basics();
        }
        SibBuilder {
            byte,
            scale: self.scale,
            index: Ghost(Some((spec_encode(reg) & 7) << 3)),
            base: self.base,
        }
    }

    /// Set the `base` field from a register.
    ///
    /// With `rbp` as the argument and a zero `ModRM.mod`, the effective base
    /// is zero.
    pub fn base(self, reg: Register) -> (r: Self)
        requires
            self.inv(),
            self.spec_base() is None,
        ensures
            r.inv(),
            r.spec_scale() == self.spec_scale(),
            r.spec_index() == self.spec_index(),
            r.spec_base() == Some(spec_encode(reg) & 7),
    {
        let byte = self.byte | (reg.encode() & 7);
        proof {
            lemma_u8_or_basics();
        }
        SibBuilder {
            byte,
            scale: self.scale,
            index: self.index,
            base: Ghost(Some(spec_encode(reg) & 7)),
        }
    }

    /// The SIB byte; every field must have been set.
    pub fn build(self) -> (r: u8)
        requires
            self.inv(),
            self.spec_scale() is Some,
            self.spec_index() is Some,
            self.spec_base() is Some,
        ensures
            r == ((self.spec_scale()->Some_0 | self.spec_index()->Some_0)
                | self.spec_base()->Some_0),
    {
        self.byte
    }
}

} // verus!
