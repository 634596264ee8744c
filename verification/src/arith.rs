//! Scaling utility and sign-correct integer division helpers.

use vstd::prelude::*;

use vstd::arithmetic::power::{lemma_pow_adds, lemma_pow_increases, lemma_pow_positive};

verus! {

/// `10^n` as a mathematical integer.
pub open spec fn pow10(n: nat) -> int {
    vstd::arithmetic::power::pow(10, n)
}

pub proof fn lemma_pow10_pos(n: nat)
    ensures
        pow10(n) >= 1,
{
    lemma_pow_positive(10, n);
}

pub proof fn lemma_pow10_adds(m: nat, n: nat)
    ensures
        pow10(m + n) == pow10(m) * pow10(n),
{
    lemma_pow_adds(10, m, n);
}

pub proof fn lemma_pow10_increases(m: nat, n: nat)
    requires
        m <= n,
    ensures
        pow10(m) <= pow10(n),
{
    lemma_pow_increases(10, m, n);
}

/// One unfolding of the recursive definition of `pow10`.
pub proof fn lemma_pow10_unfold(n: nat)
    requires
        n >= 1,
    ensures
        pow10(n) == 10 * pow10((n - 1) as nat),
{
    lemma_pow10_adds(1, (n - 1) as nat);
    vstd::arithmetic::power::lemma_pow1(10);
}

pub proof fn lemma_pow10_38()
    ensures
        pow10(38) == 100000000000000000000000000000000000000int,
{
    reveal_with_fuel(vstd::arithmetic::power::pow, 40);
}

pub proof fn lemma_pow10_18()
    ensures
        pow10(18) == 1000000000000000000int,
{
    reveal_with_fuel(vstd::arithmetic::power::pow, 20);
}

/// Quotient of `a / p` truncated toward zero, for `p > 0`.
pub open spec fn trunc_div(a: int, p: int) -> int {
    if a >= 0 {
        a / p
    } else {
        -((-a) / p)
    }
}

/// Remainder matching `trunc_div`: its sign follows the dividend's.
pub open spec fn trunc_rem(a: int, p: int) -> int {
    if a >= 0 {
        a % p
    } else {
        -((-a) % p)
    }
}

/// Quotient of `a / p` rounded toward positive infinity, for `p > 0`.
pub open spec fn ceil_div(a: int, p: int) -> int {
    -((-a) / p)
}

/// Division and remainder by 1 leave a value unchanged, under every
/// rounding direction.
pub proof fn lemma_unit_divisor(c: int)
    ensures
        c / 1 == c,
        trunc_div(c, 1) == c,
        trunc_rem(c, 1) == 0,
        ceil_div(c, 1) == c,
{
    assert(c / 1 == c && (-c) / 1 == -c && c % 1 == 0 && (-c) % 1 == 0) by (nonlinear_arith);
}

/// A quotient by a positive divisor lies between zero and the dividend.
pub proof fn lemma_div_bounds(x: int, p: int)
    requires
        p >= 1,
    ensures
        x >= 0 ==> 0 <= x / p <= x,
        x < 0 ==> x <= x / p <= 0,
{
    if x >= 0 {
        vstd::arithmetic::div_mod::lemma_div_pos_is_pos(x, p);
        vstd::arithmetic::div_mod::lemma_div_nonincreasing(x, p);
    } else {
        vstd::arithmetic::div_mod::lemma_fundamental_div_mod(x, p);
        let q = x / p;
        let r = x % p;
        assert((p >= 1 && x == p * q + r && 0 <= r < p && x < 0) ==> x <= q && q <= 0)
            by (nonlinear_arith);
    }
}

/// `10^n` in the coefficient's integer type; `n` must be at most 38.
pub fn ten_pow(n: u8) -> (r: i128)
    requires
        n <= 38,
    ensures
        r == pow10(n as nat),
        r >= 1,
{
    proof {
        lemma_pow10_pos(n as nat);
        vstd::arithmetic::power::lemma_pow0(10);
    }
    let mut r: i128 = 1;
    let mut i: u8 = 0;
    while i < n
        invariant
            i <= n,
            n <= 38,
            r == pow10(i as nat),
        decreases n - i,
    {
        proof {
            lemma_pow10_38();
            lemma_pow10_increases((i + 1) as nat, 38);
            lemma_pow10_unfold((i + 1) as nat);
            lemma_pow10_pos(i as nat);
        }
        r = r * 10;
        i = i + 1;
    }
    r
}

/// `10^n` as an unsigned 64-bit value; `n` must be at most 18.
pub fn ten_pow_u64(n: u8) -> (r: u64)
    requires
        n <= 18,
    ensures
        r == pow10(n as nat),
        r >= 1,
{
    proof {
        lemma_pow10_increases(n as nat, 18);
        lemma_pow10_18();
        lemma_pow10_pos(n as nat);
    }
    ten_pow(n) as u64
}

/// `10^n` as an unsigned 128-bit value; `n` must be at most 38.
pub fn ten_pow_u128(n: u8) -> (r: u128)
    requires
        n <= 38,
    ensures
        r == pow10(n as nat),
        r >= 1,
{
    ten_pow(n) as u128
}

/// Truncating quotient and remainder, as Rust's `/` and `%` compute them.
pub fn divmod(a: i128, b: i128) -> (r: (i128, i128))
    requires
        b > 0,
    ensures
        r.0 == trunc_div(a as int, b as int),
        r.1 == trunc_rem(a as int, b as int),
        a as int == r.0 * b + r.1,
{
    let q = a / b;
    let m = a % b;
    proof {
        if a >= 0 {
            vstd::arithmetic::div_mod::lemma_fundamental_div_mod(a as int, b as int);
            vstd::arithmetic::mul::lemma_mul_is_commutative(b as int, a as int / b as int);
        } else {
            vstd::arithmetic::div_mod::lemma_fundamental_div_mod(-(a as int), b as int);
            let d1 = (-(a as int)) / (b as int);
            let r1 = (-(a as int)) % (b as int);
            assert(-(a as int) == b * d1 + r1 ==> a as int == (-d1) * b + (-r1))
                by (nonlinear_arith);
        }
    }
    (q, m)
}

/// Quotient rounded toward negative infinity, for a positive divisor.
pub fn div_floor(a: i128, b: i128) -> (r: i128)
    requires
        b > 0,
    ensures
        r == a as int / b as int,
{
    let (q, m) = divmod(a, b);
    if m < 0 {
        proof {
            lemma_trunc_quotient_above_min(a as int, b as int, q as int, m as int);
            assert(a as int == q * b + m ==> a as int == (q - 1) * b + (m + b))
                by (nonlinear_arith);
            vstd::arithmetic::div_mod::lemma_fundamental_div_mod_converse(
                a as int,
                b as int,
                q - 1,
                m + b,
            );
        }
        q - 1
    } else {
        proof {
            vstd::arithmetic::div_mod::lemma_fundamental_div_mod_converse(
                a as int,
                b as int,
                q as int,
                m as int,
            );
        }
        q
    }
}

/// When truncating division leaves a nonzero remainder, its quotient is
/// strictly inside the representable range, so adjusting it by one is safe.
proof fn lemma_trunc_quotient_above_min(a: int, b: int, q: int, m: int)
    requires
        b > 0,
        i128::MIN <= a <= i128::MAX,
        q == trunc_div(a, b),
        m == trunc_rem(a, b),
        m != 0,
    ensures
        i128::MIN < q < i128::MAX,
{
    if b == 1 {
        assert(a % 1 == 0 && (-a) % 1 == 0) by (nonlinear_arith);
        assert(false);
    } else if a == 0 {
        vstd::arithmetic::div_mod::lemma_small_mod(0, b as nat);
        assert(false);
    } else if a > 0 {
        vstd::arithmetic::div_mod::lemma_div_pos_is_pos(a, b);
        vstd::arithmetic::div_mod::lemma_div_decreases(a, b);
    } else {
        vstd::arithmetic::div_mod::lemma_div_pos_is_pos(-a, b);
        vstd::arithmetic::div_mod::lemma_div_decreases(-a, b);
    }
}

/// Quotient rounded toward positive infinity, for a positive divisor.
pub fn div_ceil(a: i128, b: i128) -> (r: i128)
    requires
        b > 0,
    ensures
        r == ceil_div(a as int, b as int),
{
    let (q, m) = divmod(a, b);
    if m > 0 {
        proof {
            lemma_trunc_quotient_above_min(a as int, b as int, q as int, m as int);
            assert(a as int == q * b + m ==> -(a as int) == (-q - 1) * b + (b - m))
                by (nonlinear_arith);
            vstd::arithmetic::div_mod::lemma_fundamental_div_mod_converse(
                -(a as int),
                b as int,
                -q - 1,
                b - m,
            );
        }
        q + 1
    } else {
        proof {
            assert(a as int == q * b + m ==> -(a as int) == (-q) * b + (-m))
                by (nonlinear_arith);
            vstd::arithmetic::div_mod::lemma_fundamental_div_mod_converse(
                -(a as int),
                b as int,
                -(q as int),
                -(m as int),
            );
        }
        q
    }
}

} // verus!
