//! Builder for the ModR/M byte.
//!
//! The byte is `mod(2) | reg(3) | rm(3)`. Each field must be set exactly
//! once before the byte is produced; ghost flags carry that discipline
//! through the contracts, so no byte can be emitted with an unset field.

use vstd::prelude::*;

verus! {

/// The ModR/M byte for the given field values.
pub open spec fn modrm_byte(md: u8, reg: u8, rm: u8) -> u8 {
    ((md << 6) | ((reg & 7) << 3)) | (rm & 7)
}

/// Facts about `|` on bytes: commutative, associative, with zero as the
/// neutral element.
pub proof fn lemma_u8_or_basics()
    ensures
        forall|a: u8, b: u8| #[trigger] (a | b) == (b | a),
        forall|a: u8, b: u8, c: u8| #[trigger] ((a | b) | c) == (a | (b | c)),
        forall|a: u8| #[trigger] (a | 0u8) == a,
{
    assert(forall|a: u8, b: u8| #[trigger] (a | b) == (b | a)) by (bit_vector);
    assert(forall|a: u8, b: u8, c: u8| #[trigger] ((a | b) | c) == (a | (b | c)))
        by (bit_vector);
    assert(forall|a: u8| #[trigger] (a | 0u8) == a) by (bit_vector);
}

/// The contribution of an optional field to the accumulated byte.
pub open spec fn field_or_zero(v: Option<u8>) -> u8 {
    match v {
        Some(x) => x,
        None => 0u8,
    }
}

/// Accumulates the ModR/M byte field by field.
pub struct ModRmBuilder {
    byte: u8,
    md: Ghost<Option<u8>>,
    reg: Ghost<Option<u8>>,
    rm: Ghost<Option<u8>>,
}

impl ModRmBuilder {
    /// The two-bit addressing mode, if set.
    pub closed spec fn spec_md(self) -> Option<u8> {
        self.md@
    }

    /// The `reg` operand, if set.
    pub closed spec fn spec_reg(self) -> Option<u8> {
        self.reg@
    }

    /// The `rm` operand, if set.
    pub closed spec fn spec_rm(self) -> Option<u8> {
        self.rm@
    }

    /// The byte accumulated so far matches the fields set so far.
    pub closed spec fn inv(self) -> bool {
        self.byte == ((field_or_zero(self.md@) | field_or_zero(self.reg@))
            | field_or_zero(self.rm@))
    }

    /// A builder with all three fields blank.
    pub fn new() -> (r: Self)
        ensures
            r.inv(),
            r.spec_md() is None,
            r.spec_reg() is None,
            r.spec_rm() is None,
    {
        let r = ModRmBuilder { byte: 0, md: Ghost(None), reg: Ghost(None), rm: Ghost(None) };
        proof {
            lemma_u8_or_basics();
        }
        r
    }

    /// Set the register-direct addressing mode.
    pub fn direct(self) -> (r: Self)
        requires
            self.inv(),
            self.spec_md() is None,
        ensures
            r.inv(),
            r.spec_md() == Some(0b11u8 << 6),
            r.spec_reg() == self.spec_reg(),
            r.spec_rm() == self.spec_rm(),
    {
        let byte = self.byte | (0b11u8 << 6);
        proof {
            lemma_u8_or_basics();
        }
        ModRmBuilder { byte, md: Ghost(Some(0b11u8 << 6)), reg: self.reg, rm: self.rm }
    }

    /// Set the register-indirect addressing mode with a 32-bit displacement.
    pub fn displacement(self) -> (r: Self)
        requires
            self.inv(),
            self.spec_md() is None,
        ensures
            r.inv(),
            r.spec_md() == Some(0b10u8 << 6),
            r.spec_reg() == self.spec_reg(),
            r.spec_rm() == self.spec_rm(),
    {
        let byte = self.byte | (0b10u8 << 6);
        proof {
            lemma_u8_or_basics();
        }
        ModRmBuilder { byte, md: Ghost(Some(0b10u8 << 6)), reg: self.reg, rm: self.rm }
    }

    /// Set the register-indirect addressing mode without displacement.
    pub fn indirect(self) -> (r: Self)
        requires
            self.inv(),
            self.spec_md() is None,
        ensures
            r.inv(),
            r.spec_md() == Some(0u8),
            r.spec_reg() == self.spec_reg(),
            r.spec_rm() == self.spec_rm(),
    {
        proof {
            lemma_u8_or_basics();
        }
        ModRmBuilder { byte: self.byte, md: Ghost(Some(0u8)), reg: self.reg, rm: self.rm }
    }

    /// Set the `reg` field from the three least significant bits of the
    /// argument.
    pub fn reg(self, reg: u8) -> (r: Self)
        requires
            self.inv(),
            self.spec_reg() is None,
        ensures
            r.inv(),
            r.spec_md() == self.spec_md(),
            r.spec_reg() == Some((reg & 7) << 3),
            r.spec_rm() == self.spec_rm(),
    {
        let byte = self.byte | ((reg & 7) << 3);
        proof {
            lemma_u8_or_basics();
        }
        ModRmBuilder { byte, md: self.md, reg: Ghost(Some((reg & 7) << 3)), rm: self.rm }
    }

    /// Set the `rm` field from the three least significant bits of the
    /// argument.
    pub fn rm(self, rm: u8) -> (r: Self)
        requires
            self.inv(),
            self.spec_rm() is None,
        ensures
            r.inv(),
            r.spec_md() == self.spec_md(),
            r.spec_reg() == self.spec_reg(),
            r.spec_rm() == Some(rm & 7),
    {
        let byte = self.byte | (rm & 7);
        proof {
            lemma_u8_or_basics();
        }
        ModRmBuilder { byte, md: self.md, reg: self.reg, rm: Ghost(Some(rm & 7)) }
    }

    /// Set instruction-pointer-relative addressing: indirect mode with the
    /// `rm` field fixed to `0b101`.
    pub fn relative(self) -> (r: Self)
        requires
            self.inv(),
            self.spec_md() is None,
            self.spec_rm() is None,
        ensures
            r.inv(),
            r.spec_md() == Some(0u8),
            r.spec_reg() == self.spec_reg(),
            r.spec_rm() == Some(0b101u8 & 7),
    {
        self.indirect().rm(0b101)
    }

    /// The ModR/M byte; every field must have been set.
    pub fn build(self) -> (r: u8)
        requires
            self.inv(),
            self.spec_md() is Some,
            self.spec_reg() is Some,
            self.spec_rm() is Some,
        ensures
            r == ((self.spec_md()->Some_0 | self.spec_reg()->Some_0) | self.spec_rm()->Some_0),
    {
        self.byte
    }
}

} // verus!
