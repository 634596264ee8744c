//! General laws of the decimal operations, stated once for all inputs and
//! proved against the operations' own specifications.

use vstd::prelude::*;

use vstd::arithmetic::div_mod::{lemma_fundamental_div_mod, lemma_fundamental_div_mod_converse};

use crate::arith::{
    ceil_div, lemma_div_bounds, lemma_pow10_18, lemma_pow10_increases, lemma_pow10_pos,
    lemma_unit_divisor, pow10, trunc_div, trunc_rem,
};
use crate::binops::spec_div_rounded;
use crate::rounding::lemma_round_half_even_exact;
use crate::unops::{spec_abs, spec_ceil, spec_floor, spec_fract, spec_neg, spec_trunc};
use crate::{Decimal, DecimalError, MAX_N_FRAC_DIGITS};

verus! {

/// The truncating quotient and remainder by a positive divisor stay within
/// the dividend's own range, and remainder and quotient recompose it.
proof fn lemma_trunc_decomposition(c: int, p: int)
    requires
        p >= 1,
    ensures
        c == trunc_div(c, p) * p + trunc_rem(c, p),
        c >= 0 ==> 0 <= trunc_div(c, p) <= c && 0 <= trunc_rem(c, p) < p,
        c < 0 ==> c <= trunc_div(c, p) <= 0 && -p < trunc_rem(c, p) <= 0,
{
    if c >= 0 {
        lemma_fundamental_div_mod(c, p);
        lemma_div_bounds(c, p);
        assert(c == p * (c / p) + c % p ==> c == (c / p) * p + c % p) by (nonlinear_arith);
    } else {
        lemma_fundamental_div_mod(-c, p);
        lemma_div_bounds(-c, p);
        let q = (-c) / p;
        let r = (-c) % p;
        assert((-c == p * q + r) ==> c == (-q) * p + (-r)) by (nonlinear_arith);
    }
}

/// Floor and truncation return integral values: their scale is always 0,
/// and applying either to its own result changes nothing.
pub proof fn lemma_floor_trunc_idempotent(d: Decimal)
    requires
        d.wf(),
    ensures
        spec_floor(d).n_frac_digits == 0,
        spec_trunc(d).n_frac_digits == 0,
        spec_floor(spec_floor(d)) == spec_floor(d),
        spec_trunc(spec_trunc(d)) == spec_trunc(d),
{
    let c = d.coeff as int;
    let p = pow10(d.n_frac_digits as nat);
    lemma_pow10_pos(d.n_frac_digits as nat);
    vstd::arithmetic::power::lemma_pow0(10);
    lemma_div_bounds(c, p);
    lemma_trunc_decomposition(c, p);
    lemma_unit_divisor(spec_floor(d).coeff as int);
    lemma_unit_divisor(spec_trunc(d).coeff as int);
}

/// In mathematical value, `Floor(d) <= d <= Ceiling(d)`, with equality on
/// either side exactly when `d` has no fractional part at its scale. The
/// comparisons are written with the integral results scaled back up by
/// `10^scale`, so that both sides are exact integers.
pub proof fn lemma_floor_le_value_le_ceil(d: Decimal)
    requires
        d.wf(),
    ensures
        spec_floor(d).coeff * pow10(d.n_frac_digits as nat) <= d.coeff,
        d.coeff <= spec_ceil(d).coeff * pow10(d.n_frac_digits as nat),
        (spec_floor(d).coeff * pow10(d.n_frac_digits as nat) == d.coeff) <==> spec_fract(
            d,
        ).coeff == 0,
        (spec_ceil(d).coeff * pow10(d.n_frac_digits as nat) == d.coeff) <==> spec_fract(
            d,
        ).coeff == 0,
{
    let c = d.coeff as int;
    let p = pow10(d.n_frac_digits as nat);
    lemma_pow10_pos(d.n_frac_digits as nat);
    lemma_fundamental_div_mod(c, p);
    lemma_fundamental_div_mod(-c, p);
    lemma_div_bounds(c, p);
    lemma_div_bounds(-c, p);
    lemma_trunc_decomposition(c, p);
    let q = c / p;
    let r = c % p;
    let qn = (-c) / p;
    let rn = (-c) % p;
    assert((c == p * q + r) ==> q * p == c - r) by (nonlinear_arith);
    assert((-c == p * qn + rn) ==> (-qn) * p == c + rn) by (nonlinear_arith);
    assert(r == 0 <==> rn == 0) by {
        if r == 0 {
            assert((c == p * q + r && r == 0) ==> -c == (-q) * p + 0) by (nonlinear_arith);
            lemma_fundamental_div_mod_converse(-c, p, -q, 0);
        }
        if rn == 0 {
            assert((-c == p * qn + rn && rn == 0) ==> c == (-qn) * p + 0) by (nonlinear_arith);
            lemma_fundamental_div_mod_converse(c, p, -qn, 0);
        }
    }
}

/// Negation is an involution away from the minimum coefficient; the
/// minimum itself is excluded, since its negation is not representable.
pub proof fn lemma_neg_involution(d: Decimal)
    requires
        d.coeff != i128::MIN,
    ensures
        spec_neg(spec_neg(d)) == d,
{
}

/// The absolute value is idempotent and never negative, away from the
/// minimum coefficient.
pub proof fn lemma_abs_idempotent(d: Decimal)
    requires
        d.coeff != i128::MIN,
    ensures
        spec_abs(spec_abs(d)) == spec_abs(d),
        spec_abs(d).coeff >= 0,
{
}

/// Truncation and fractional part are exact complements: the original
/// coefficient is the truncated coefficient scaled back up, plus the
/// fractional coefficient.
pub proof fn lemma_trunc_fract_complement(d: Decimal)
    requires
        d.wf(),
    ensures
        d.coeff == spec_trunc(d).coeff * pow10(d.n_frac_digits as nat) + spec_fract(d).coeff,
{
    let c = d.coeff as int;
    let p = pow10(d.n_frac_digits as nat);
    lemma_pow10_pos(d.n_frac_digits as nat);
    lemma_pow10_increases(d.n_frac_digits as nat, 18);
    lemma_pow10_18();
    lemma_trunc_decomposition(c, p);
    assert(spec_trunc(d).coeff == trunc_div(c, p));
    assert(spec_fract(d).coeff == trunc_rem(c, p));
}

/// Dividing any nonzero value by itself, rounded to `t` digits, yields
/// exactly one, scaled to `t`: the coefficient `10^t` at scale `t`.
pub proof fn lemma_div_rounded_self(a: Decimal, t: u8)
    requires
        a.wf(),
        a.coeff != 0,
        t <= MAX_N_FRAC_DIGITS,
    ensures
        spec_div_rounded(a, a, t) == Ok::<Decimal, DecimalError>(
            Decimal { coeff: pow10(t as nat) as i128, n_frac_digits: t },
        ),
{
    let pt = pow10(t as nat);
    let psa = pow10(a.n_frac_digits as nat);
    let den = a.coeff * psa;
    let num = a.coeff * pow10((t + a.n_frac_digits) as nat);
    lemma_pow10_pos(t as nat);
    lemma_pow10_pos(a.n_frac_digits as nat);
    lemma_pow10_increases(t as nat, 18);
    lemma_pow10_18();
    crate::arith::lemma_pow10_adds(t as nat, a.n_frac_digits as nat);
    assert(a.coeff * (pt * psa) == (a.coeff * psa) * pt) by (nonlinear_arith);
    assert((a.coeff != 0 && psa >= 1 && den == a.coeff * psa) ==> den != 0) by (nonlinear_arith);
    if den > 0 {
        vstd::arithmetic::div_mod::lemma_mod_multiples_basic(pt, den);
        vstd::arithmetic::div_mod::lemma_div_multiples_vanish(pt, den);
        assert(den * pt == pt * den) by (nonlinear_arith);
        lemma_round_half_even_exact(num, den);
    } else {
        vstd::arithmetic::div_mod::lemma_mod_multiples_basic(pt, -den);
        vstd::arithmetic::div_mod::lemma_div_multiples_vanish(pt, -den);
        assert((num == den * pt) ==> -num == (-den) * pt && (-den) * pt == pt * (-den))
            by (nonlinear_arith);
        lemma_round_half_even_exact(-num, -den);
    }
}

} // verus!
