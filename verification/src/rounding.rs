//! The round-half-to-even rule on exact integer quotients.

use vstd::prelude::*;

use vstd::arithmetic::div_mod::{lemma_fundamental_div_mod, lemma_fundamental_div_mod_converse};
use vstd::math::abs;

verus! {

/// Rounds the exact rational `num / den` (for `den > 0`) to the nearest
/// integer, resolving ties to the even neighbour.
pub open spec fn round_half_even(num: int, den: int) -> int {
    let q = num / den;
    let r = num % den;
    if 2 * r < den {
        q
    } else if 2 * r > den {
        q + 1
    } else if q % 2 == 0 {
        q
    } else {
        q + 1
    }
}

/// Rounds `num / den` for any nonzero `den`, normalising the divisor's sign.
pub open spec fn rounded_quotient(num: int, den: int) -> int {
    if den > 0 {
        round_half_even(num, den)
    } else {
        round_half_even(-num, -den)
    }
}

/// Parity facts about a quotient and its neighbours under Euclidean `% 2`.
proof fn lemma_parity(q: int)
    ensures
        q % 2 == 0 || q % 2 == 1,
        (q % 2 == 0) <==> ((q + 1) % 2 == 1),
        ((-q - 1) % 2 == 0) <==> (q % 2 == 1),
{
    lemma_fundamental_div_mod(q, 2);
    let h = q / 2;
    let p = q % 2;
    if p == 0 {
        lemma_fundamental_div_mod_converse(q + 1, 2, h, 1);
        lemma_fundamental_div_mod_converse(-q - 1, 2, -h - 1, 1);
    } else {
        lemma_fundamental_div_mod_converse(q + 1, 2, h + 1, 0);
        lemma_fundamental_div_mod_converse(-q - 1, 2, -h - 1, 0);
    }
}

/// An exactly divisible quotient is returned unrounded.
pub proof fn lemma_round_half_even_exact(num: int, den: int)
    requires
        den > 0,
        num % den == 0,
    ensures
        round_half_even(num, den) == num / den,
{
}

/// A nonnegative quotient of at most one half rounds to zero: below the
/// half it is simply nearer to zero, and the exact tie resolves to the even
/// neighbour, which is zero.
pub proof fn lemma_round_half_even_small(num: int, den: int)
    requires
        den > 0,
        0 <= 2 * num <= den,
    ensures
        round_half_even(num, den) == 0,
{
    lemma_fundamental_div_mod_converse(num, den, 0, num);
}

/// Round-half-to-even is symmetric under negation of the dividend.
pub proof fn lemma_round_half_even_neg(num: int, den: int)
    requires
        den > 0,
    ensures
        round_half_even(-num, den) == -round_half_even(num, den),
{
    let q = num / den;
    let r = num % den;
    lemma_fundamental_div_mod(num, den);
    lemma_parity(q);
    if r == 0 {
        assert((num == den * q + r && r == 0) ==> -num == (-q) * den + 0) by (nonlinear_arith);
        lemma_fundamental_div_mod_converse(-num, den, -q, 0);
    } else {
        assert(num == den * q + r ==> -num == (-q - 1) * den + (den - r)) by (nonlinear_arith);
        lemma_fundamental_div_mod_converse(-num, den, -q - 1, den - r);
    }
}

/// Scaling dividend and divisor by a common positive factor does not change
/// the rounded quotient.
pub proof fn lemma_round_half_even_scaled(num: int, den: int, k: int)
    requires
        den > 0,
        k > 0,
    ensures
        round_half_even(k * num, k * den) == round_half_even(num, den),
{
    let q = num / den;
    let r = num % den;
    lemma_fundamental_div_mod(num, den);
    assert((k > 0 && den > 0) ==> k * den > 0) by (nonlinear_arith);
    assert(num == den * q + r ==> k * num == q * (k * den) + k * r) by (nonlinear_arith);
    assert((0 <= r < den && k > 0) ==> 0 <= k * r < k * den) by (nonlinear_arith);
    lemma_fundamental_div_mod_converse(k * num, k * den, q, k * r);
    assert(k > 0 ==> ((2 * (k * r) < k * den <==> 2 * r < den) && (2 * (k * r) > k * den
        <==> 2 * r > den))) by (nonlinear_arith);
}

/// An exact tie always rounds to an even integer.
pub proof fn lemma_round_half_even_tie(num: int, den: int)
    requires
        den > 0,
        2 * (num % den) == den,
    ensures
        round_half_even(num, den) % 2 == 0,
{
    lemma_parity(num / den);
}

/// Splits a rounded quotient into the rounding of the magnitudes and the
/// sign of the exact quotient.
pub proof fn lemma_rounded_quotient_sign(num: int, den: int)
    requires
        den != 0,
    ensures
        rounded_quotient(num, den) == (if (num < 0) == (den < 0) {
            round_half_even(abs(num) as int, abs(den) as int)
        } else {
            -round_half_even(abs(num) as int, abs(den) as int)
        }),
{
    if den > 0 {
        if num < 0 {
            lemma_round_half_even_neg(-num, den);
        }
    } else {
        if num == 0 {
            lemma_fundamental_div_mod_converse(0, -den, 0, 0);
        } else if num > 0 {
            lemma_round_half_even_neg(num, -den);
        }
    }
}

} // verus!
