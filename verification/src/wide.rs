//! Double-width unsigned helpers, used to carry the exact intermediate
//! values of the precision-controlled operations without loss.

use vstd::prelude::*;

use vstd::arithmetic::div_mod::{
    lemma_fundamental_div_mod, lemma_fundamental_div_mod_converse, lemma_multiply_divide_lt,
};

verus! {

/// A 256-bit unsigned value, `hi * 2^128 + lo`.
#[derive(Clone, Copy)]
pub struct U256 {
    pub hi: u128,
    pub lo: u128,
}

/// The mathematical value a `U256` stands for.
pub open spec fn u256_val(x: U256) -> int {
    x.hi as int * 0x100000000000000000000000000000000int + x.lo as int
}

/// The exact 256-bit product of two 128-bit values.
pub fn mul_u128(a: u128, b: u128) -> (r: U256)
    ensures
        u256_val(r) == a * b,
{
    let l: u128 = 0x10000000000000000;
    let ah = a / l;
    let al = a % l;
    let bh = b / l;
    let bl = b % l;
    proof {
        assert((al < l && bl < l && ah < l && bh < l) ==> al * bl < l * l && al * bh < l * l
            && ah * bl < l * l && ah * bh < l * l) by (nonlinear_arith);
        assert(a == l * ah + al && b == l * bh + bl) by {
            lemma_fundamental_div_mod(a as int, l as int);
            lemma_fundamental_div_mod(b as int, l as int);
        }
    }
    let ll = al * bl;
    let lh = al * bh;
    let hl = ah * bl;
    let hh = ah * bh;
    let t1 = ll / l + lh % l + hl % l;
    let limb1 = t1 % l;
    let t2 = t1 / l + lh / l + hl / l + hh % l;
    let limb2 = t2 % l;
    let limb3 = t2 / l + hh / l;
    proof {
        let li = l as int;
        assert((a == li * ah + al && b == li * bh + bl) ==> a * b == (ah * bh) * (li * li) + (
        al * bh) * li + (ah * bl) * li + al * bl) by (nonlinear_arith);
        lemma_fundamental_div_mod(ll as int, li);
        lemma_fundamental_div_mod(lh as int, li);
        lemma_fundamental_div_mod(hl as int, li);
        lemma_fundamental_div_mod(hh as int, li);
        lemma_fundamental_div_mod(t1 as int, li);
        lemma_fundamental_div_mod(t2 as int, li);
        assert(a * b == (limb3 as int) * 0x1000000000000000000000000000000000000000000000000int
            + (limb2 as int) * 0x100000000000000000000000000000000int + (limb1 as int)
            * 0x10000000000000000int + (ll % l) as int);
        assert((a < 0x100000000000000000000000000000000int && b
            < 0x100000000000000000000000000000000int) ==> a * b
            < 0x1000000000000000000000000000000000000000000000000int * 0x10000000000000000int)
            by (nonlinear_arith);
        assert(limb3 < l) by {
            if limb3 as int >= l as int {
                assert(false);
            }
        }
    }
    let hi = limb3 * l + limb2;
    let lo = limb1 * l + ll % l;
    U256 { hi, lo }
}

/// Divides a 256-bit value by a small divisor, returning quotient and
/// remainder.
pub fn div_rem_u64(x: U256, d: u64) -> (r: (U256, u64))
    requires
        d > 0,
    ensures
        u256_val(x) == u256_val(r.0) * d + r.1,
        r.1 < d,
{
    let l: u128 = 0x10000000000000000;
    let l3 = x.hi / l;
    let l2 = x.hi % l;
    let l1 = x.lo / l;
    let l0 = x.lo % l;
    let dd = d as u128;
    let q3 = l3 / dd;
    let c3 = l3 % dd;
    proof {
        lemma_limb_step(l3 as int, l2 as int, dd as int, l as int);
    }
    let cur2 = c3 * l + l2;
    let q2 = cur2 / dd;
    let c2 = cur2 % dd;
    proof {
        lemma_limb_step(cur2 as int, l1 as int, dd as int, l as int);
    }
    let cur1 = c2 * l + l1;
    let q1 = cur1 / dd;
    let c1 = cur1 % dd;
    proof {
        lemma_limb_step(cur1 as int, l0 as int, dd as int, l as int);
    }
    let cur0 = c1 * l + l0;
    let q0 = cur0 / dd;
    let c0 = cur0 % dd;
    proof {
        lemma_limb_step(cur0 as int, 0, dd as int, l as int);
        lemma_fundamental_div_mod(x.hi as int, l as int);
        lemma_fundamental_div_mod(x.lo as int, l as int);
        lemma_fundamental_div_mod(l3 as int, dd as int);
        lemma_fundamental_div_mod(cur2 as int, dd as int);
        lemma_fundamental_div_mod(cur1 as int, dd as int);
        lemma_fundamental_div_mod(cur0 as int, dd as int);
        let di = dd as int;
        let c3i = 0x1000000000000000000000000000000000000000000000000int;
        let c2i = 0x100000000000000000000000000000000int;
        let c1i = 0x10000000000000000int;
        let a3 = q3 * c3i;
        let a2 = q2 * c2i;
        let a1 = q1 * c1i;
        assert((a3 + a2 + a1 + q0) * di == a3 * di + a2 * di + a1 * di + q0 * di)
            by (nonlinear_arith);
        assert((q3 * c3i) * di == (di * q3) * c3i) by (nonlinear_arith);
        assert((q2 * c2i) * di == (di * q2) * c2i) by (nonlinear_arith);
        assert((q1 * c1i) * di == (di * q1) * c1i) by (nonlinear_arith);
        assert((q0 as int) * di == di * q0) by (nonlinear_arith);
    }
    (U256 { hi: q3 * l + q2, lo: q1 * l + q0 }, c0 as u64)
}

/// One limb step of schoolbook division: bounds for carrying the remainder
/// into the next limb.
proof fn lemma_limb_step(cur: int, nxt: int, d: int, l: int)
    requires
        d > 0,
        l > 1,
        0 <= cur,
        0 <= nxt < l,
        cur < d * l,
    ensures
        cur / d < l,
        (cur % d) * l + nxt < d * l,
        0 <= (cur % d) * l + nxt,
{
    lemma_multiply_divide_lt(cur, d, l);
    assert((cur % d < d && 0 <= cur % d && 0 <= nxt < l && l > 1) ==> (cur % d) * l + nxt < d
        * l && 0 <= (cur % d) * l + nxt) by (nonlinear_arith);
}

/// Compares a 256-bit value with a 128-bit one.
pub fn ge_u128(x: U256, y: u128) -> (r: bool)
    ensures
        r == (u256_val(x) >= y),
{
    x.hi > 0 || x.lo >= y
}

/// Subtracts a 128-bit value from a 256-bit one that is at least as large.
pub fn sub_u128(x: U256, y: u128) -> (r: U256)
    requires
        u256_val(x) >= y,
    ensures
        u256_val(r) == u256_val(x) - y,
{
    if x.lo >= y {
        U256 { hi: x.hi, lo: x.lo - y }
    } else {
        U256 { hi: x.hi - 1, lo: x.lo + ((u128::MAX - y) + 1) }
    }
}

} // verus!
