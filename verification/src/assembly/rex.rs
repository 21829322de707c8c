//! Builder for the REX prefix byte.
//!
//! The byte is `0100 W R X B`. Each field must be set exactly once before
//! the byte is produced; ghost flags carry that discipline through the
//! contracts, so no byte can be emitted with an unset field.

use vstd::prelude::*;

verus! {

/// The REX byte for the given field values.
pub open spec fn rex_byte(w: bool, r: bool, x: bool, b: bool) -> u8 {
    let b0 = 0b01000000u8;
    let b1 = if w { b0 | 0b1000u8 } else { b0 };
    let b2 = if r { b1 | 0b100u8 } else { b1 };
    let b3 = if x { b2 | 0b10u8 } else { b2 };
    if b { b3 | 0b1u8 } else { b3 }
}

/// Accumulates the REX prefix field by field.
pub struct RexBuilder {
    byte: u8,
    w: Ghost<Option<bool>>,
    r: Ghost<Option<bool>>,
    x: Ghost<Option<bool>>,
    b: Ghost<Option<bool>>,
}

impl RexBuilder {
    /// The `W` field, if set.
    pub closed spec fn spec_w(self) -> Option<bool> {
        self.w@
    }

    /// The `R` field, if set.
    pub closed spec fn spec_r(self) -> Option<bool> {
        self.r@
    }

    /// The `X` field, if set.
    pub closed spec fn spec_x(self) -> Option<bool> {
        self.x@
    }

    /// The `B` field, if set.
    pub closed spec fn spec_b(self) -> Option<bool> {
        self.b@
    }

    /// The byte accumulated so far matches the fields set so far.
    pub closed spec fn inv(self) -> bool {
        self.byte == rex_byte(
            self.w@ == Some(true),
            self.r@ == Some(true),
            self.x@ == Some(true),
            self.b@ == Some(true),
        )
    }

    /// A builder with all four fields blank.
    pub fn new() -> (r: Self)
        ensures
            r.inv(),
            r.spec_w() is None,
            r.spec_r() is None,
            r.spec_x() is None,
            r.spec_b() is None,
    {
        RexBuilder {
            byte: 0b01000000u8,
            w: Ghost(None),
            r: Ghost(None),
            x: Ghost(None),
            b: Ghost(None),
        }
    }

    /// Set the operand size: 64-bit when `w` holds, the default otherwise.
    pub fn set_w(self, w: bool) -> (r: Self)
        requires
            self.inv(),
            self.spec_w() is None,
            self.spec_r() is None,
            self.spec_x() is None,
            self.spec_b() is None,
        ensures
            r.inv(),
            r.spec_w() == Some(w),
            r.spec_r() is None,
            r.spec_x() is None,
            r.spec_b() is None,
    {
        let mut byte = self.byte;
        if w {
            byte = byte | 0b1000u8;
        }
        RexBuilder { byte, w: Ghost(Some(w)), r: self.r, x: self.x, b: self.b }
    }

    /// Extend the `ModRM.reg` field when `r` holds.
    pub fn set_r(self, r: bool) -> (res: Self)
        requires
            self.inv(),
            self.spec_w() is Some,
            self.spec_r() is None,
            self.spec_x() is None,
            self.spec_b() is None,
        ensures
            res.inv(),
            res.spec_w() == self.spec_w(),
            res.spec_r() == Some(r),
            res.spec_x() is None,
            res.spec_b() is None,
    {
        let mut byte = self.byte;
        if r {
            byte = byte | 0b100u8;
        }
        RexBuilder { byte, w: self.w, r: Ghost(Some(r)), x: self.x, b: self.b }
    }

    /// Extend the `SIB.index` field when `x` holds.
    pub fn set_x(self, x: bool) -> (res: Self)
        requires
            self.inv(),
            self.spec_w() is Some,
            self.spec_r() is Some,
            self.spec_x() is None,
            self.spec_b() is None,
        ensures
            res.inv(),
            res.spec_w() == self.spec_w(),
            res.spec_r() == self.spec_r(),
            res.spec_x() == Some(x),
            res.spec_b() is None,
    {
        let mut byte = self.byte;
        if x {
            byte = byte | 0b10u8;
        }
        RexBuilder { byte, w: self.w, r: self.r, x: Ghost(Some(x)), b: self.b }
    }

    /// Extend the `ModRM.rm`, `opcode+rd` or `SIB.base` field when `b` holds.
    pub fn set_b(self, b: bool) -> (res: Self)
        requires
            self.inv(),
            self.spec_w() is Some,
            self.spec_r() is Some,
            self.spec_x() is Some,
            self.spec_b() is None,
        ensures
            res.inv(),
            res.spec_w() == self.spec_w(),
            res.spec_r() == self.spec_r(),
            res.spec_x() == self.spec_x(),
            res.spec_b() == Some(b),
    {
        let mut byte = self.byte;
        if b {
            byte = byte | 0b1u8;
        }
        RexBuilder { byte, w: self.w, r: self.r, x: self.x, b: Ghost(Some(b)) }
    }

    /// The REX prefix byte; every field must have been set.
    pub fn finish(self) -> (r: u8)
        requires
            self.inv(),
            self.spec_w() is Some,
            self.spec_r() is Some,
            self.spec_x() is Some,
            self.spec_b() is Some,
        ensures
            r == rex_byte(
                self.spec_w() == Some(true),
                self.spec_r() == Some(true),
                self.spec_x() == Some(true),
                self.spec_b() == Some(true),
            ),
    {
        self.byte
    }
}

} // verus!
