//! Numbers with a fraction, as far as this library looks at them.
//!
//! Coordinates and travel costs are single-precision numbers. Nothing here
//! computes with them; they are held by their bits, which say all that the
//! library asks of such a number: whether it is finite, and whether it is
//! negative.

use vstd::prelude::*;

verus! {

/// A single-precision number of IEEE 754, held by its 32 bits.
#[derive(Debug, Clone, Copy, PartialEq, Eq, Structural)]
pub struct Single {
    /// Sign, exponent and fraction, from the most significant bit down.
    pub bits: u32,
}

impl Single {
    /// The 8 bits of the exponent field, as a number.
    pub open spec fn exponent(self) -> int {
        (self.bits as int / 0x80_0000) % 256
    }

    /// Neither an infinity nor a NaN: those are the numbers whose exponent
    /// field holds ones only.
    pub open spec fn finite(self) -> bool {
        self.exponent() != 255
    }

    /// A finite number that is not below zero: the sign bit is clear, or the
    /// number is minus zero, which is zero.
    pub open spec fn non_negative(self) -> bool {
        self.finite() && self.bits <= 0x8000_0000
    }

    /// Whether the number is finite.
    pub fn is_finite(&self) -> (r: bool)
        ensures
            r == self.finite(),
    {
        let bits = self.bits;
        let field = (bits >> 23) & 0xff;
        assert(field == (bits / 0x80_0000) % 256) by (bit_vector)
            requires
                field == (bits >> 23) & 0xff,
        ;
        field != 0xff
    }

    /// Whether the number is finite and not below zero.
    pub fn is_non_negative(&self) -> (r: bool)
        ensures
            r == self.non_negative(),
    {
        self.is_finite() && self.bits <= 0x8000_0000
    }
}

} // verus!
