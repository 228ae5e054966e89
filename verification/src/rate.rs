//! Speaking rates in IEEE 754 binary32 encoding.
//!
//! The 32 bits are, from the top, one sign bit, eight bits of exponent and 23
//! bits of fraction. A finite positive rate is `significand * 2^exponent`.

use vstd::prelude::*;
use crate::error::SpeechError;

verus! {

/// A speaking-rate multiplier: the bits of a binary32 number.
#[derive(Clone, Copy, Debug, PartialEq, Eq, Structural)]
pub struct Rate {
    pub bits: u32,
}

impl Rate {
    /// The sign bit: 1 for negative numbers and negative zero.
    pub open spec fn sign_bit(self) -> nat {
        self.bits as nat / 0x8000_0000
    }

    /// The eight exponent bits.
    pub open spec fn exponent_field(self) -> nat {
        (self.bits as nat / 0x80_0000) % 0x100
    }

    /// The 23 fraction bits.
    pub open spec fn fraction_field(self) -> nat {
        self.bits as nat % 0x80_0000
    }

    /// Neither a NaN nor an infinity.
    pub open spec fn is_finite(self) -> bool {
        self.exponent_field() != 0xFF
    }

    /// A finite number above zero: the rates that a request may carry.
    pub open spec fn is_valid(self) -> bool {
        self.is_finite() && self.sign_bit() == 0 && self.bits != 0
    }

    /// The integer that the fraction bits stand for, with the leading one of a
    /// normal number.
    pub open spec fn significand(self) -> nat {
        if self.exponent_field() == 0 {
            self.fraction_field()
        } else {
            0x80_0000 + self.fraction_field()
        }
    }

    /// The power of two that the significand is multiplied by.
    pub open spec fn exponent(self) -> int {
        if self.exponent_field() == 0 {
            -149
        } else {
            self.exponent_field() - 150
        }
    }

    /// A valid rate has a significand of up to 24 binary digits that is not
    /// zero, and an exponent from -149 to 104.
    pub proof fn lemma_valid_parts(self)
        requires
            self.is_valid(),
        ensures
            0 < self.significand() < 0x100_0000,
            -149 <= self.exponent() <= 104,
    {
    }

    /// The rate with the given binary32 bits.
    pub fn from_bits(bits: u32) -> (rate: Rate)
        ensures
            rate.bits == bits,
    {
        Rate { bits }
    }

    /// The binary32 bits of the rate.
    pub fn to_bits(self) -> (bits: u32)
        ensures
            bits == self.bits,
    {
        self.bits
    }

    /// Significand and exponent of a valid rate; the error for any other.
    pub fn decode(self) -> (parts: Result<(u32, i32), SpeechError>)
        ensures
            !self.is_finite() ==> parts == Err::<(u32, i32), SpeechError>(
                SpeechError::NonFiniteRate,
            ),
            self.is_finite() && !self.is_valid() ==> parts == Err::<(u32, i32), SpeechError>(
                SpeechError::NonPositiveRate,
            ),
            self.is_valid() ==> (parts matches Ok(pair) && pair.0 == self.significand() && pair.1
                == self.exponent()),
    {
        let sign: u32 = self.bits / 0x8000_0000;
        let field: u32 = (self.bits / 0x80_0000) % 0x100;
        let fraction: u32 = self.bits % 0x80_0000;
        if field == 0xFF {
            Err(SpeechError::NonFiniteRate)
        } else if sign != 0 || self.bits == 0 {
            Err(SpeechError::NonPositiveRate)
        } else if field == 0 {
            Ok((fraction, -149))
        } else {
            Ok((0x80_0000 + fraction, field as i32 - 150))
        }
    }
}

} // verus!
