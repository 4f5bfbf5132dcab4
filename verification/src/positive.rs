//! A finite, non-negative binary64 value.
//!
//! The foundation type of the crate: a bit pattern whose sign bit is
//! clear and whose exponent field is not all-ones, so the denoted number
//! is finite and at least zero.  Non-negativity is a type-level
//! contract: the one constructor requires it, no runtime check is made,
//! and every reading method may rely on it.

use vstd::prelude::*;
use crate::repr::{is_finite_bits, lemma_mag_nonneg, sign_of, val_of};

verus! {

/// A finite binary64 value that is never negative, held as its bit
/// pattern.
#[derive(Clone, Copy, Debug, PartialEq, Eq, Structural, PartialOrd)]
pub struct PositiveFloat {
    bits: u64,
}

impl View for PositiveFloat {
    type V = int;

    /// The denoted number, in units of `2^-1074`.
    closed spec fn view(&self) -> int {
        val_of(self.bits)
    }
}

impl PositiveFloat {
    /// The pattern is finite and sign-free, so the denoted number is
    /// non-negative.
    pub closed spec fn wf(self) -> bool {
        is_finite_bits(self.bits) && !sign_of(self.bits)
    }

    /// A well-formed value denotes a non-negative number.
    pub proof fn lemma_wf_nonneg(self)
        requires
            self.wf(),
        ensures
            self@ >= 0,
    {
        lemma_mag_nonneg(self.bits);
    }

    /// Stores a non-negative finite value verbatim.  The caller owes the
    /// sign: by usage contract this type is only ever handed already
    /// non-negative patterns, and nothing is checked at runtime.
    pub fn from(bits: u64) -> (r: PositiveFloat)
        requires
            is_finite_bits(bits),
            !sign_of(bits),
        ensures
            r.wf(),
            r@ == val_of(bits),
    {
        PositiveFloat { bits }
    }

    /// Returns the stored value unchanged, as its bit pattern.
    pub fn as_float(&self) -> (r: u64)
        requires
            self.wf(),
        ensures
            val_of(r) == self@,
            is_finite_bits(r),
            !sign_of(r),
    {
        self.bits
    }

    /// The value zero.
    pub fn zero() -> (r: PositiveFloat)
        ensures
            r.wf(),
            r@ == 0,
    {
        proof {
            crate::repr::lemma_zero_val();
        }
        PositiveFloat { bits: 0 }
    }

    /// The smallest positive normal binary64 value, `2^-1022`
    /// (`2^52` units): the floor of the valid angle range's lower bound.
    pub fn min_positive() -> (r: PositiveFloat)
        ensures
            r.wf(),
            r@ == vstd::arithmetic::power2::pow2(52),
    {
        proof {
            crate::repr::lemma_min_positive_val();
        }
        PositiveFloat { bits: 0x10000000000000 }
    }
}

impl Default for PositiveFloat {
    /// The default value is zero.
    fn default() -> (r: PositiveFloat)
        ensures
            r.wf(),
            r@ == 0,
    {
        PositiveFloat::zero()
    }
}

} // verus!
