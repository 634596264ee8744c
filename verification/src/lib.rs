//! Exact fixed-point decimal arithmetic.
//!
//! A [`Decimal`] represents the number `coeff / 10^n_frac_digits` exactly.
//! The operations provided here — sign operations, rounding decomposition
//! (floor, ceiling, truncation, fractional part) and precision-controlled
//! multiplication and division with round-half-to-even — are all proved
//! against mathematical specifications of their results.

use vstd::prelude::*;

pub mod arith;
pub mod binops;
pub mod laws;
pub mod order;
pub mod rounding;
pub mod unops;
mod wide;

verus! {

/// Largest number of fractional digits a well-formed `Decimal` may carry.
pub const MAX_N_FRAC_DIGITS: u8 = 18;

/// An exact decimal number, represented as `coeff / 10^n_frac_digits`.
///
/// Values are immutable; every operation returns a new value. Equality
/// compares coefficient and scale directly, with no rescaling.
#[derive(Clone, Copy, Debug, PartialEq, Eq, Structural)]
pub struct Decimal {
    pub coeff: i128,
    pub n_frac_digits: u8,
}

/// The failures the arithmetic operations can report.
#[derive(Clone, Copy, Debug, PartialEq, Eq, Structural)]
pub enum DecimalError {
    /// A result's coefficient would fall outside the representable range.
    CoefficientOverflow,
    /// The divisor of a division was the zero value.
    DivisionByZero,
    /// A requested scale exceeds `MAX_N_FRAC_DIGITS`.
    InvalidScale,
}

impl Decimal {
    /// The scale bound every operation expects of its operands.
    pub open spec fn wf(self) -> bool {
        self.n_frac_digits <= MAX_N_FRAC_DIGITS
    }

    /// Builds a decimal value directly from a coefficient and a scale.
    pub fn new_raw(coeff: i128, n_frac_digits: u8) -> (r: Self)
        requires
            n_frac_digits <= MAX_N_FRAC_DIGITS,
        ensures
            r.coeff == coeff,
            r.n_frac_digits == n_frac_digits,
            r.wf(),
    {
        Decimal { coeff, n_frac_digits }
    }

    /// The zero value, at scale 0.
    pub fn zero() -> (r: Self)
        ensures
            r.coeff == 0,
            r.n_frac_digits == 0,
            r.wf(),
    {
        Decimal { coeff: 0, n_frac_digits: 0 }
    }

    /// The largest representable value at scale 0.
    pub fn max_value() -> (r: Self)
        ensures
            r.coeff == i128::MAX,
            r.n_frac_digits == 0,
            r.wf(),
    {
        Decimal { coeff: i128::MAX, n_frac_digits: 0 }
    }

    /// The smallest representable value at scale 0.
    pub fn min_value() -> (r: Self)
        ensures
            r.coeff == i128::MIN,
            r.n_frac_digits == 0,
            r.wf(),
    {
        Decimal { coeff: i128::MIN, n_frac_digits: 0 }
    }
}

} // verus!
