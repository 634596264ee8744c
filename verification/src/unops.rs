//! Sign operations and rounding decomposition.

use vstd::prelude::*;

use crate::arith::{
    ceil_div, div_ceil, div_floor, pow10, ten_pow, trunc_div, trunc_rem,
};
use crate::Decimal;

verus! {

/// The value negation returns: the coefficient negated, the scale kept.
pub open spec fn spec_neg(d: Decimal) -> Decimal {
    Decimal { coeff: (-d.coeff) as i128, n_frac_digits: d.n_frac_digits }
}

/// The absolute value: the coefficient's magnitude, the scale kept.
pub open spec fn spec_abs(d: Decimal) -> Decimal {
    Decimal {
        coeff: (if d.coeff < 0 {
            -d.coeff
        } else {
            d.coeff as int
        }) as i128,
        n_frac_digits: d.n_frac_digits,
    }
}

/// The largest integral value at or below `d`: the coefficient divided by
/// `10^scale` rounding toward negative infinity, at scale 0.
pub open spec fn spec_floor(d: Decimal) -> Decimal {
    Decimal {
        coeff: (d.coeff as int / pow10(d.n_frac_digits as nat)) as i128,
        n_frac_digits: 0,
    }
}

/// The smallest integral value at or above `d`, at scale 0.
pub open spec fn spec_ceil(d: Decimal) -> Decimal {
    Decimal {
        coeff: ceil_div(d.coeff as int, pow10(d.n_frac_digits as nat)) as i128,
        n_frac_digits: 0,
    }
}

/// The integral part of `d`: division by `10^scale` truncated toward zero,
/// at scale 0.
pub open spec fn spec_trunc(d: Decimal) -> Decimal {
    Decimal {
        coeff: trunc_div(d.coeff as int, pow10(d.n_frac_digits as nat)) as i128,
        n_frac_digits: 0,
    }
}

/// The fractional part of `d`: the remainder of truncation, with the sign of
/// the dividend, at the original scale.
pub open spec fn spec_fract(d: Decimal) -> Decimal {
    Decimal {
        coeff: trunc_rem(d.coeff as int, pow10(d.n_frac_digits as nat)) as i128,
        n_frac_digits: d.n_frac_digits,
    }
}

impl Decimal {
    /// Returns `-self`; the minimum representable coefficient is excluded,
    /// since its negation is not representable.
    pub fn neg(&self) -> (r: Self)
        requires
            self.coeff != i128::MIN,
        ensures
            r == spec_neg(*self),
    {
        Decimal { coeff: -self.coeff, n_frac_digits: self.n_frac_digits }
    }

    /// Returns the absolute value of `self`; the minimum representable
    /// coefficient is excluded, since its magnitude is not representable.
    pub fn abs(&self) -> (r: Self)
        requires
            self.coeff != i128::MIN,
        ensures
            r == spec_abs(*self),
    {
        Decimal {
            coeff: if self.coeff < 0 {
                -self.coeff
            } else {
                self.coeff
            },
            n_frac_digits: self.n_frac_digits,
        }
    }

    /// Returns the largest integral value `<= self`, at scale 0.
    pub fn floor(&self) -> (r: Self)
        requires
            self.wf(),
        ensures
            r == spec_floor(*self),
    {
        match self.n_frac_digits {
            0 => {
                proof {
                    vstd::arithmetic::power::lemma_pow0(10);
                    crate::arith::lemma_unit_divisor(self.coeff as int);
                }
                self.clone()
            },
            n => Decimal { coeff: div_floor(self.coeff, ten_pow(n)), n_frac_digits: 0 },
        }
    }

    /// Returns the smallest integral value `>= self`, at scale 0.
    pub fn ceil(&self) -> (r: Self)
        requires
            self.wf(),
        ensures
            r == spec_ceil(*self),
    {
        match self.n_frac_digits {
            0 => {
                proof {
                    vstd::arithmetic::power::lemma_pow0(10);
                    crate::arith::lemma_unit_divisor(self.coeff as int);
                }
                self.clone()
            },
            n => Decimal { coeff: div_ceil(self.coeff, ten_pow(n)), n_frac_digits: 0 },
        }
    }

    /// Returns the integral part of `self`, truncated toward zero, at scale 0.
    pub fn trunc(&self) -> (r: Self)
        requires
            self.wf(),
        ensures
            r == spec_trunc(*self),
    {
        match self.n_frac_digits {
            0 => {
                proof {
                    vstd::arithmetic::power::lemma_pow0(10);
                    crate::arith::lemma_unit_divisor(self.coeff as int);
                }
                self.clone()
            },
            n => Decimal { coeff: self.coeff / ten_pow(n), n_frac_digits: 0 },
        }
    }

    /// Returns the fractional part of `self` — what truncation discards —
    /// with the sign of `self`, at the original scale.
    pub fn fract(&self) -> (r: Self)
        requires
            self.wf(),
        ensures
            r == spec_fract(*self),
    {
        match self.n_frac_digits {
            0 => {
                proof {
                    vstd::arithmetic::power::lemma_pow0(10);
                    crate::arith::lemma_unit_divisor(self.coeff as int);
                }
                Decimal::zero()
            },
            n => Decimal { coeff: self.coeff % ten_pow(n), n_frac_digits: n },
        }
    }
}

} // verus!
