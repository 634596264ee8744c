//! Precision-controlled multiplication and division: the exact product or
//! quotient is rounded once, to a caller-chosen scale, with round-half-to-even.

use vstd::prelude::*;

use vstd::arithmetic::div_mod::lemma_fundamental_div_mod_converse;
use vstd::math::abs;

use crate::arith::{
    lemma_pow10_adds, lemma_pow10_increases, lemma_pow10_pos, lemma_pow10_unfold, pow10,
    ten_pow_u128,
};
use crate::rounding::{
    lemma_round_half_even_scaled, lemma_round_half_even_small, lemma_rounded_quotient_sign,
    round_half_even, rounded_quotient,
};
use crate::wide::{ge_u128, mul_u128, sub_u128, u256_val, U256};
use crate::{Decimal, DecimalError, MAX_N_FRAC_DIGITS};

verus! {

/// What `mul_rounded` returns: the exact product `a * b`, rounded half to
/// even at `t` fractional digits, or the error owed for the given inputs.
pub open spec fn spec_mul_rounded(a: Decimal, b: Decimal, t: u8) -> Result<
    Decimal,
    DecimalError,
> {
    if t > MAX_N_FRAC_DIGITS {
        Err(DecimalError::InvalidScale)
    } else {
        let c = rounded_quotient(
            a.coeff * b.coeff * pow10(t as nat),
            pow10((a.n_frac_digits + b.n_frac_digits) as nat),
        );
        if i128::MIN <= c <= i128::MAX {
            Ok(Decimal { coeff: c as i128, n_frac_digits: t })
        } else {
            Err(DecimalError::CoefficientOverflow)
        }
    }
}

/// What `div_rounded` returns: the exact quotient `a / b`, rounded half to
/// even at `t` fractional digits, or the error owed for the given inputs.
pub open spec fn spec_div_rounded(a: Decimal, b: Decimal, t: u8) -> Result<
    Decimal,
    DecimalError,
> {
    if t > MAX_N_FRAC_DIGITS {
        Err(DecimalError::InvalidScale)
    } else if b.coeff == 0 {
        Err(DecimalError::DivisionByZero)
    } else {
        let c = rounded_quotient(
            a.coeff * pow10((t + b.n_frac_digits) as nat),
            b.coeff * pow10(a.n_frac_digits as nat),
        );
        if i128::MIN <= c <= i128::MAX {
            Ok(Decimal { coeff: c as i128, n_frac_digits: t })
        } else {
            Err(DecimalError::CoefficientOverflow)
        }
    }
}

/// What `checked_add` returns: both coefficients brought to the larger of
/// the two scales, then summed, each step reporting overflow as the
/// operation's failure.
pub open spec fn spec_add(a: Decimal, b: Decimal) -> Result<Decimal, DecimalError> {
    let s = if a.n_frac_digits >= b.n_frac_digits {
        a.n_frac_digits
    } else {
        b.n_frac_digits
    };
    let va = a.coeff * pow10((s - a.n_frac_digits) as nat);
    let vb = b.coeff * pow10((s - b.n_frac_digits) as nat);
    if !(i128::MIN <= va <= i128::MAX) {
        Err(DecimalError::CoefficientOverflow)
    } else if !(i128::MIN <= vb <= i128::MAX) {
        Err(DecimalError::CoefficientOverflow)
    } else if !(i128::MIN <= va + vb <= i128::MAX) {
        Err(DecimalError::CoefficientOverflow)
    } else {
        Ok(Decimal { coeff: (va + vb) as i128, n_frac_digits: s })
    }
}

impl Decimal {
    /// Adds `other` to `self` exactly, at the larger of the two scales.
    pub fn checked_add(&self, other: &Decimal) -> (r: Result<Decimal, DecimalError>)
        requires
            self.wf(),
            other.wf(),
        ensures
            r == spec_add(*self, *other),
    {
        let s = if self.n_frac_digits >= other.n_frac_digits {
            self.n_frac_digits
        } else {
            other.n_frac_digits
        };
        let va = match self.coeff.checked_mul(crate::arith::ten_pow(s - self.n_frac_digits)) {
            Some(v) => v,
            None => {
                return Err(DecimalError::CoefficientOverflow);
            },
        };
        let vb = match other.coeff.checked_mul(crate::arith::ten_pow(s - other.n_frac_digits)) {
            Some(v) => v,
            None => {
                return Err(DecimalError::CoefficientOverflow);
            },
        };
        match va.checked_add(vb) {
            Some(v) => Ok(Decimal { coeff: v, n_frac_digits: s }),
            None => Err(DecimalError::CoefficientOverflow),
        }
    }
}

/// The magnitude of a coefficient, which fits the unsigned type even at the
/// minimum representable value.
fn abs_u128(c: i128) -> (r: u128)
    ensures
        r == abs(c as int),
{
    if c >= 0 {
        c as u128
    } else if c == i128::MIN {
        0x80000000000000000000000000000000u128
    } else {
        (-c) as u128
    }
}

/// The magnitude of a product is the product of the magnitudes, and its sign
/// is negative exactly when the factors' signs differ and neither is zero.
proof fn lemma_abs_mul(x: int, y: int)
    ensures
        abs(x * y) == abs(x) * abs(y),
        x * y < 0 <==> ((x < 0) != (y < 0) && x != 0 && y != 0),
{
    if x >= 0 && y >= 0 {
        assert((x >= 0 && y >= 0) ==> x * y >= 0) by (nonlinear_arith);
    } else if x >= 0 && y < 0 {
        assert((x >= 0 && y < 0) ==> x * y <= 0 && -(x * y) == x * (-y) && (x != 0 ==> x * y
            < 0)) by (nonlinear_arith);
    } else if x < 0 && y >= 0 {
        assert((x < 0 && y >= 0) ==> x * y <= 0 && -(x * y) == (-x) * y && (y != 0 ==> x * y
            < 0)) by (nonlinear_arith);
    } else {
        assert((x < 0 && y < 0) ==> x * y > 0 && x * y == (-x) * (-y)) by (nonlinear_arith);
    }
}

/// Applies the half-to-even adjustment to a quotient `q` with remainder `r`,
/// yielding the rounding of the exact ratio `n / d`.
fn half_even_adjust(q: u128, r: u128, d: u128, Ghost(n): Ghost<int>) -> (m: u128)
    requires
        d > 0,
        r < d,
        n == q * d + r,
        q < u128::MAX,
    ensures
        m as int == round_half_even(n, d as int),
        q <= m <= q + 1,
{
    proof {
        lemma_fundamental_div_mod_converse(n, d as int, q as int, r as int);
    }
    let t = d - r;
    if r < t {
        q
    } else if r > t {
        q + 1
    } else if q % 2 == 0 {
        q
    } else {
        q + 1
    }
}

/// Applies the sign to a rounded magnitude and checks the representable
/// range, producing the operation's result.
fn signed_result(neg: bool, m: u128, t: u8, Ghost(c): Ghost<int>) -> (r: Result<
    Decimal,
    DecimalError,
>)
    requires
        t <= MAX_N_FRAC_DIGITS,
        c == (if neg {
            -(m as int)
        } else {
            m as int
        }),
    ensures
        r == (if i128::MIN <= c <= i128::MAX {
            Ok(Decimal { coeff: c as i128, n_frac_digits: t })
        } else {
            Err::<Decimal, DecimalError>(DecimalError::CoefficientOverflow)
        }),
{
    if neg {
        if m <= 0x7fffffffffffffffffffffffffffffffu128 {
            Ok(Decimal { coeff: -(m as i128), n_frac_digits: t })
        } else if m == 0x80000000000000000000000000000000u128 {
            Ok(Decimal { coeff: i128::MIN, n_frac_digits: t })
        } else {
            Err(DecimalError::CoefficientOverflow)
        }
    } else {
        if m <= 0x7fffffffffffffffffffffffffffffffu128 {
            Ok(Decimal { coeff: m as i128, n_frac_digits: t })
        } else {
            Err(DecimalError::CoefficientOverflow)
        }
    }
}

impl Decimal {
    /// Multiplies `self` by `other` exactly and rounds the product half to
    /// even at `n_frac_digits` fractional digits.
    pub fn mul_rounded(&self, other: &Decimal, n_frac_digits: u8) -> (r: Result<
        Decimal,
        DecimalError,
    >)
        requires
            self.wf(),
            other.wf(),
        ensures
            r == spec_mul_rounded(*self, *other, n_frac_digits),
    {
        if n_frac_digits > MAX_N_FRAC_DIGITS {
            return Err(DecimalError::InvalidScale);
        }
        let ghost num = self.coeff * other.coeff * pow10(n_frac_digits as nat);
        let ghost den = pow10((self.n_frac_digits + other.n_frac_digits) as nat);
        let neg = (self.coeff < 0) != (other.coeff < 0);
        let na = abs_u128(self.coeff);
        let nb = abs_u128(other.coeff);
        let p = mul_u128(na, nb);
        let ssum = self.n_frac_digits + other.n_frac_digits;
        proof {
            lemma_pow10_pos(n_frac_digits as nat);
            lemma_pow10_pos(ssum as nat);
            lemma_abs_mul(self.coeff as int, other.coeff as int);
            lemma_abs_mul(self.coeff * other.coeff, pow10(n_frac_digits as nat));
            lemma_rounded_quotient_sign(num, den);
            assert(abs(num) == (na * nb) * pow10(n_frac_digits as nat));
            assert(na * nb != 0 <==> (na != 0 && nb != 0)) by (nonlinear_arith);
            assert(num < 0 <==> (neg && na * nb != 0));
        }
        if n_frac_digits >= ssum {
            let k = n_frac_digits - ssum;
            let pk = ten_pow_u128(k);
            proof {
                lemma_pow10_adds(k as nat, ssum as nat);
                lemma_round_half_even_scaled((na * nb) * pow10(k as nat), 1, pow10(ssum as nat));
                assert((na * nb) * (pow10(k as nat) * pow10(ssum as nat)) == ((na * nb) * pow10(
                    k as nat,
                )) * pow10(ssum as nat) && (na * nb) * (pow10(k as nat) * pow10(ssum as nat))
                    == pow10(ssum as nat) * ((na * nb) * pow10(k as nat))) by (nonlinear_arith);
                lemma_rhe_by_one((na * nb) * pow10(k as nat));
                assert(u256_val(p) * pow10(k as nat) == (na * nb) * pow10(k as nat));
            }
            if p.hi == 0 {
                if p.lo <= u128::MAX / pk {
                    proof {
                        lemma_div_mul_bound(p.lo as int, pk as int, u128::MAX as int);
                    }
                    let m = p.lo * pk;
                    return signed_result(
                        neg,
                        m,
                        n_frac_digits,
                        Ghost(rounded_quotient(num, den)),
                    );
                } else {
                    proof {
                        lemma_div_mul_bound_converse(p.lo as int, pk as int, u128::MAX as int);
                        assert(rounded_quotient(num, den) > i128::MAX || rounded_quotient(
                            num,
                            den,
                        ) < i128::MIN);
                    }
                    return Err(DecimalError::CoefficientOverflow);
                }
            } else {
                proof {
                    assert(u256_val(p) >= 0x100000000000000000000000000000000int);
                    assert((u256_val(p) >= 0x100000000000000000000000000000000int && pow10(
                        k as nat,
                    ) >= 1) ==> u256_val(p) * pow10(k as nat)
                        >= 0x100000000000000000000000000000000int) by (nonlinear_arith);
                }
                return Err(DecimalError::CoefficientOverflow);
            }
        } else {
            let e = ssum - n_frac_digits;
            proof {
                lemma_pow10_pos(e as nat);
                lemma_pow10_adds(e as nat, n_frac_digits as nat);
                lemma_round_half_even_scaled(na * nb, pow10(e as nat), pow10(n_frac_digits as nat));
                assert((na * nb) * pow10(n_frac_digits as nat) == pow10(n_frac_digits as nat) * (na
                    * nb) && pow10(n_frac_digits as nat) * pow10(e as nat) == pow10(e as nat)
                    * pow10(n_frac_digits as nat)) by (nonlinear_arith);
            }
            let (q2, rem) = div_pow10_u256(p, e);
            proof {
                lemma_pow10_pos(e as nat);
                lemma_fundamental_div_mod_converse(
                    u256_val(p),
                    pow10(e as nat),
                    u256_val(q2),
                    rem as int,
                );
            }
            if q2.hi != 0 {
                proof {
                    assert(u256_val(q2) >= 0x100000000000000000000000000000000int);
                    lemma_rhe_at_least_floor(u256_val(p), pow10(e as nat));
                }
                return Err(DecimalError::CoefficientOverflow);
            }
            if q2.lo > 0x80000000000000000000000000000000u128 {
                proof {
                    lemma_rhe_at_least_floor(u256_val(p), pow10(e as nat));
                }
                return Err(DecimalError::CoefficientOverflow);
            }
            let de = ten_pow_u128(e);
            let m = half_even_adjust(q2.lo, rem, de, Ghost(u256_val(p)));
            return signed_result(neg, m, n_frac_digits, Ghost(rounded_quotient(num, den)));
        }
    }

    /// Divides `self` by `other` exactly and rounds the quotient half to
    /// even at `n_frac_digits` fractional digits.
    #[verifier::loop_isolation(false)]
    pub fn div_rounded(&self, other: &Decimal, n_frac_digits: u8) -> (r: Result<
        Decimal,
        DecimalError,
    >)
        requires
            self.wf(),
            other.wf(),
        ensures
            r == spec_div_rounded(*self, *other, n_frac_digits),
    {
        if n_frac_digits > MAX_N_FRAC_DIGITS {
            return Err(DecimalError::InvalidScale);
        }
        if other.coeff == 0 {
            return Err(DecimalError::DivisionByZero);
        }
        let ghost num = self.coeff * pow10((n_frac_digits + other.n_frac_digits) as nat);
        let ghost den = other.coeff * pow10(self.n_frac_digits as nat);
        let neg = (self.coeff < 0) != (other.coeff < 0);
        let na = abs_u128(self.coeff);
        let nb = abs_u128(other.coeff);
        let tpsb = n_frac_digits + other.n_frac_digits;
        let sa = self.n_frac_digits;
        proof {
            lemma_pow10_pos(tpsb as nat);
            lemma_pow10_pos(sa as nat);
            lemma_abs_mul(self.coeff as int, pow10(tpsb as nat));
            lemma_abs_mul(other.coeff as int, pow10(sa as nat));
            assert((nb >= 1 && pow10(sa as nat) >= 1) ==> nb * pow10(sa as nat) >= 1)
                by (nonlinear_arith);
            lemma_rounded_quotient_sign(num, den);
            assert(abs(num) == na * pow10(tpsb as nat));
            assert(abs(den) == nb * pow10(sa as nat));
            assert(num < 0 <==> (self.coeff < 0));
            assert(den < 0 <==> (other.coeff < 0));
        }
        if tpsb >= sa {
            let shift = tpsb - sa;
            proof {
                lemma_pow10_adds(shift as nat, sa as nat);
                lemma_pow10_pos(shift as nat);
                lemma_round_half_even_scaled(
                    na * pow10(shift as nat),
                    nb as int,
                    pow10(sa as nat),
                );
                assert(na * (pow10(shift as nat) * pow10(sa as nat)) == pow10(sa as nat) * (na
                    * pow10(shift as nat))) by (nonlinear_arith);
                assert(nb * pow10(sa as nat) == pow10(sa as nat) * nb) by (nonlinear_arith);
            }
            let mut q: u128 = na / nb;
            let mut rr: u128 = na % nb;
            proof {
                vstd::arithmetic::div_mod::lemma_fundamental_div_mod(na as int, nb as int);
                assert((nb as int) * ((na as int) / (nb as int)) == ((na as int) / (
                nb as int)) * (nb as int)) by (nonlinear_arith);
                vstd::arithmetic::power::lemma_pow0(10);
            }
            let mut i: u8 = 0;
            while i < shift
                invariant
                    i <= shift,
                    shift <= 36,
                    1 <= nb <= 0x80000000000000000000000000000000u128,
                    na <= 0x80000000000000000000000000000000u128,
                    rr < nb,
                    na * pow10(i as nat) == q * nb + rr,
                decreases shift - i,
            {
                if q > (u128::MAX - 9) / 10 {
                    proof {
                        vstd::arithmetic::div_mod::lemma_fundamental_div_mod(
                            (u128::MAX - 9) as int,
                            10,
                        );
                        lemma_div_overflow_bail(
                            na as int,
                            nb as int,
                            q as int,
                            rr as int,
                            i as nat,
                            shift as nat,
                        );
                    }
                    return Err(DecimalError::CoefficientOverflow);
                }
                let x10 = mul_u128(rr, 10);
                let mut x = x10;
                let mut dgt: u128 = 0;
                while ge_u128(x, nb)
                    invariant
                        1 <= nb <= 0x80000000000000000000000000000000u128,
                        rr < nb,
                        u256_val(x) >= 0,
                        10 * (rr as int) == dgt * nb + u256_val(x),
                        dgt <= 10,
                    decreases u256_val(x),
                {
                    x = sub_u128(x, nb);
                    dgt = dgt + 1;
                    proof {
                        assert((dgt as int) * nb == (dgt - 1) * nb + nb) by (nonlinear_arith);
                        assert(((dgt as int) * nb <= 10 * (rr as int) && rr < nb && nb > 0)
                            ==> dgt < 10) by (nonlinear_arith);
                    }
                }
                proof {
                    assert(((dgt as int) * nb <= 10 * (rr as int) && rr < nb && nb > 0) ==> dgt
                        <= 9) by (nonlinear_arith);
                    assert(x.hi == 0);
                    lemma_pow10_unfold((i + 1) as nat);
                    let p = pow10(i as nat);
                    assert((na * p == q * nb + rr && 10 * (rr as int) == dgt * nb + u256_val(x))
                        ==> na * (10 * p) == (q * 10 + dgt) * nb + u256_val(x))
                        by (nonlinear_arith);
                }
                q = q * 10 + dgt;
                rr = x.lo;
                i = i + 1;
            }
            if q > 0x80000000000000000000000000000000u128 {
                proof {
                    lemma_fundamental_div_mod_converse(
                        na * pow10(shift as nat),
                        nb as int,
                        q as int,
                        rr as int,
                    );
                    lemma_rhe_at_least_floor(na * pow10(shift as nat), nb as int);
                }
                return Err(DecimalError::CoefficientOverflow);
            }
            let m = half_even_adjust(q, rr, nb, Ghost(na * pow10(shift as nat)));
            return signed_result(neg, m, n_frac_digits, Ghost(rounded_quotient(num, den)));
        } else {
            let extra = sa - tpsb;
            proof {
                lemma_pow10_pos(extra as nat);
                lemma_pow10_adds(extra as nat, tpsb as nat);
                assert((nb >= 1 && pow10(extra as nat) >= 1) ==> nb * pow10(extra as nat) >= 1)
                    by (nonlinear_arith);
                lemma_round_half_even_scaled(
                    na as int,
                    nb * pow10(extra as nat),
                    pow10(tpsb as nat),
                );
                assert(na * pow10(tpsb as nat) == pow10(tpsb as nat) * na) by (nonlinear_arith);
                assert(nb * (pow10(extra as nat) * pow10(tpsb as nat)) == pow10(tpsb as nat) * (
                nb * pow10(extra as nat))) by (nonlinear_arith);
            }
            let pe = ten_pow_u128(extra);
            let dw = mul_u128(nb, pe);
            if dw.hi != 0 {
                proof {
                    assert(u256_val(dw) >= 0x100000000000000000000000000000000int);
                    lemma_round_half_even_small(na as int, u256_val(dw));
                }
                return Ok(Decimal { coeff: 0, n_frac_digits });
            }
            let d = dw.lo;
            let q0 = na / d;
            let r0 = na % d;
            proof {
                vstd::arithmetic::div_mod::lemma_fundamental_div_mod(na as int, d as int);
                assert((d as int) * ((na as int) / (d as int)) == ((na as int) / (d as int)) * (
                d as int)) by (nonlinear_arith);
                vstd::arithmetic::div_mod::lemma_div_nonincreasing(na as int, d as int);
            }
            let m = half_even_adjust(q0, r0, d, Ghost(na as int));
            return signed_result(neg, m, n_frac_digits, Ghost(rounded_quotient(num, den)));
        }
    }
}

/// While a partial quotient of the running long division already exceeds the
/// representable range, the fully scaled quotient — and so the rounded
/// result — exceeds it too.
proof fn lemma_div_overflow_bail(na: int, nb: int, q: int, r: int, i: nat, shift: nat)
    requires
        0 < nb,
        0 <= r < nb,
        0 <= na,
        na * pow10(i) == q * nb + r,
        i < shift,
        10 * q > u128::MAX - 10,
    ensures
        round_half_even(na * pow10(shift), nb) > 0x80000000000000000000000000000000int,
{
    let p = pow10((shift - i) as nat);
    lemma_pow10_pos((shift - i) as nat);
    lemma_pow10_increases(1, (shift - i) as nat);
    crate::arith::lemma_pow10_unfold(1);
    vstd::arithmetic::power::lemma_pow0(10);
    assert(p >= 10);
    lemma_pow10_adds(i, (shift - i) as nat);
    assert((na * pow10(i) == q * nb + r && na * pow10(shift) == (na * pow10(i)) * p) ==> na
        * pow10(shift) == (q * p) * nb + r * p) by (nonlinear_arith);
    assert((na * (pow10(i) * p) == (na * pow10(i)) * p)) by (nonlinear_arith);
    assert((r >= 0 && p > 0) ==> r * p >= 0) by (nonlinear_arith);
    assert((q >= 0 && p >= 10) ==> q * p >= 10 * q) by (nonlinear_arith);
    assert((q * nb + r >= 0 && nb > 0 && r < nb) ==> q >= 0) by (nonlinear_arith);
    vstd::arithmetic::div_mod::lemma_div_multiples_vanish(q * p, nb);
    assert(nb * (q * p) == (q * p) * nb) by (nonlinear_arith);
    vstd::arithmetic::div_mod::lemma_div_is_ordered((q * p) * nb, na * pow10(shift), nb);
    lemma_rhe_at_least_floor(na * pow10(shift), nb);
}

/// Rounding half to even with divisor one returns the dividend itself.
proof fn lemma_rhe_by_one(n: int)
    ensures
        round_half_even(n, 1) == n,
{
    assert(n / 1 == n && n % 1 == 0) by (nonlinear_arith);
}

/// The rounded quotient never falls below the floored quotient.
proof fn lemma_rhe_at_least_floor(n: int, d: int)
    requires
        d > 0,
    ensures
        round_half_even(n, d) >= n / d,
{
}

/// If `x <= m / p` then `x * p` stays within `m`.
proof fn lemma_div_mul_bound(x: int, p: int, m: int)
    requires
        p > 0,
        0 <= x <= m / p,
        m >= 0,
    ensures
        x * p <= m,
{
    vstd::arithmetic::div_mod::lemma_fundamental_div_mod(m, p);
    assert((x <= m / p && p > 0) ==> x * p <= (m / p) * p) by (nonlinear_arith);
    assert((m / p) * p == p * (m / p)) by (nonlinear_arith);
}

/// If `x > m / p` then `x * p` exceeds `m`.
proof fn lemma_div_mul_bound_converse(x: int, p: int, m: int)
    requires
        p > 0,
        x > m / p,
        m >= 0,
    ensures
        x * p > m,
{
    vstd::arithmetic::div_mod::lemma_fundamental_div_mod(m, p);
    assert((x >= m / p + 1 && p > 0) ==> x * p >= (m / p) * p + p) by (nonlinear_arith);
    assert((m / p) * p == p * (m / p)) by (nonlinear_arith);
}

/// Divides a 256-bit magnitude by `10^e`, for `e` up to 36, returning the
/// quotient and the full remainder.
fn div_pow10_u256(p: U256, e: u8) -> (r: (U256, u128))
    requires
        1 <= e <= 36,
    ensures
        u256_val(p) == u256_val(r.0) * pow10(e as nat) + r.1,
        0 <= r.1 < pow10(e as nat),
{
    if e <= 18 {
        let d = crate::arith::ten_pow_u64(e);
        let (q, c) = crate::wide::div_rem_u64(p, d);
        (q, c as u128)
    } else {
        let d1 = crate::arith::ten_pow_u64(18);
        let (q1, r1) = crate::wide::div_rem_u64(p, d1);
        let d2 = crate::arith::ten_pow_u64(e - 18);
        let (q2, r2) = crate::wide::div_rem_u64(q1, d2);
        proof {
            lemma_pow10_adds((e - 18) as nat, 18);
            crate::arith::lemma_pow10_18();
            crate::arith::lemma_pow10_pos((e - 18) as nat);
            crate::arith::lemma_pow10_increases((e - 18) as nat, 18);
            let v2 = u256_val(q2);
            let d1i = d1 as int;
            let d2i = d2 as int;
            assert((u256_val(q1) == v2 * d2i + r2) ==> (u256_val(q1) * d1i == v2 * (d2i * d1i)
                + r2 * d1i)) by (nonlinear_arith);
            assert((r2 < d2i && r2 >= 0 && d1i > 0 && d2i > 0) ==> (0 <= r2 * d1i && r2 * d1i
                <= (d2i - 1) * d1i)) by (nonlinear_arith);
            assert((d2i - 1) * d1i == d2i * d1i - d1i) by (nonlinear_arith);
        }
        (q2, (r2 as u128) * (d1 as u128) + (r1 as u128))
    }
}

} // verus!
