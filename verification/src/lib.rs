//! Normalized plane angles in radians.
//!
//! The crate provides two layered value types:
//!
//! * [`PositiveFloat`] — an IEEE-754 binary64 value (held as its 64-bit
//!   pattern) that is finite and non-negative;
//! * [`Radian`] — an angle, a `PositiveFloat` further constrained to the
//!   half-open interval `[0, 2π)`, normalized on construction and
//!   re-normalized after every mutation.
//!
//! All arithmetic on the stored values is carried out on the bit patterns
//! with integer operations only, so that every operation — including the
//! rounding performed by binary64 addition and multiplication — is stated
//! and proved exactly.

pub mod positive;
pub mod radian;
pub mod repr;
pub mod round;

pub use positive::PositiveFloat;
pub use radian::Radian;
