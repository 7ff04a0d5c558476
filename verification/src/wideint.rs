//! Exact 256-bit products of `u128` values, as (high, low) limb pairs.
//!
//! Similarity ranking compares rationals of the form `d^2 / x` by cross
//! multiplication; the products exceed 128 bits, so they are computed as two
//! 128-bit limbs and compared lexicographically.

use vstd::prelude::*;
use vstd::arithmetic::div_mod::lemma_fundamental_div_mod;
use vstd::arithmetic::div_mod::lemma_multiply_divide_le;
use vstd::arithmetic::div_mod::lemma_multiply_divide_lt;
use vstd::arithmetic::mul::lemma_mul_upper_bound;

verus! {

/// 2^64, the limb base used to split a `u128` for wide multiplication.
pub const BASE64: u128 = 0x1_0000_0000_0000_0000;

/// 2^128 as a mathematical integer: the weight of the high limb.
pub open spec fn b128() -> int {
    0x1_0000_0000_0000_0000_0000_0000_0000_0000int
}

/// The integer value represented by a (high, low) limb pair.
pub open spec fn u256_val(p: (u128, u128)) -> int {
    p.0 * b128() + p.1
}

/// The schoolbook identity behind `wide_mul`: splitting both factors at the
/// limb base and recombining partial products with carries is exact.
proof fn lemma_limb_recombine(
    bb: int,
    a1: int,
    a0: int,
    b1: int,
    b0: int,
    q00: int,
    r00: int,
    qm: int,
    rm: int,
    q2: int,
    r2: int,
)
    requires
        a0 * b0 == q00 * bb + r00,
        a1 * b0 + q00 == qm * bb + rm,
        a0 * b1 + rm == q2 * bb + r2,
    ensures
        (a1 * bb + a0) * (b1 * bb + b0) == (a1 * b1 + qm + q2) * (bb * bb) + (r2 * bb + r00),
{
    assert((a1 * bb + a0) * (b1 * bb + b0) == (a1 * bb) * (b1 * bb) + (a1 * bb) * b0 + a0 * (b1
        * bb) + a0 * b0) by (nonlinear_arith);
    assert((a1 * bb) * (b1 * bb) == (a1 * b1) * (bb * bb)) by (nonlinear_arith);
    assert((a1 * bb) * b0 == (a1 * b0) * bb) by (nonlinear_arith);
    assert(a0 * (b1 * bb) == (a0 * b1) * bb) by (nonlinear_arith);
    assert((a1 * b1 + qm + q2) * (bb * bb) + (r2 * bb + r00) == (a1 * b1) * (bb * bb) + (a1 * b0)
        * bb + (a0 * b1) * bb + a0 * b0) by (nonlinear_arith)
        requires
            a0 * b0 == q00 * bb + r00,
            a1 * b0 + q00 == qm * bb + rm,
            a0 * b1 + rm == q2 * bb + r2,
    ;
}

/// Exact product of two `u128` values as a (high, low) limb pair.
pub fn wide_mul(a: u128, b: u128) -> (r: (u128, u128))
    ensures
        u256_val(r) == a * b,
{
    let bb = BASE64;
    let a1 = a / bb;
    let a0 = a % bb;
    let b1 = b / bb;
    let b0 = b % bb;
    proof {
        lemma_multiply_divide_lt(a as int, bb as int, bb as int);
        lemma_multiply_divide_lt(b as int, bb as int, bb as int);
        lemma_mul_upper_bound(a0 as int, bb - 1, b0 as int, bb - 1);
        lemma_mul_upper_bound(a0 as int, bb - 1, b1 as int, bb - 1);
        lemma_mul_upper_bound(a1 as int, bb - 1, b0 as int, bb - 1);
        lemma_mul_upper_bound(a1 as int, bb - 1, b1 as int, bb - 1);
    }
    let p00 = a0 * b0;
    let p01 = a0 * b1;
    let p10 = a1 * b0;
    let p11 = a1 * b1;
    proof {
        lemma_multiply_divide_le(p00 as int, bb as int, bb - 1);
    }
    let mid = p10 + p00 / bb;
    let mid2 = p01 + mid % bb;
    proof {
        lemma_multiply_divide_le(mid as int, bb as int, bb - 1);
        lemma_multiply_divide_le(mid2 as int, bb as int, bb - 1);
    }
    let hi = p11 + mid / bb + mid2 / bb;
    let lo = (mid2 % bb) * bb + p00 % bb;
    proof {
        lemma_fundamental_div_mod(a as int, bb as int);
        lemma_fundamental_div_mod(b as int, bb as int);
        lemma_fundamental_div_mod(p00 as int, bb as int);
        lemma_fundamental_div_mod(mid as int, bb as int);
        lemma_fundamental_div_mod(mid2 as int, bb as int);
        lemma_limb_recombine(
            bb as int,
            a1 as int,
            a0 as int,
            b1 as int,
            b0 as int,
            p00 as int / bb as int,
            p00 as int % bb as int,
            mid as int / bb as int,
            mid as int % bb as int,
            mid2 as int / bb as int,
            mid2 as int % bb as int,
        );
        assert(b128() == bb * bb);
    }
    (hi, lo)
}

/// Exact `d * d * x` as a (high, low) limb pair, for operands below 2^80.
pub fn sq_mul(d: u128, x: u128) -> (r: (u128, u128))
    requires
        d < 0x1_0000_0000_0000_0000_0000,
        x < 0x1_0000_0000_0000_0000_0000,
    ensures
        u256_val(r) == d * d * x,
{
    let (h1, l1) = wide_mul(d, d);
    let (h2, l2) = wide_mul(l1, x);
    proof {
        let p80 = 0x1_0000_0000_0000_0000_0000int;
        assert(d * d < p80 * p80) by (nonlinear_arith)
            requires
                0 <= d < p80,
        ;
        assert(h1 * b128() <= d * d);
        assert(h1 < 0x1_0000_0000_0000_0000_0000_0000_0000_0000_0000_0000int / b128())
            by (nonlinear_arith)
            requires
                h1 * b128() < 0x1_0000_0000_0000_0000_0000_0000_0000_0000_0000_0000int,
                b128() == 0x1_0000_0000_0000_0000_0000_0000_0000_0000int,
        ;
        assert(l1 * x < b128() * p80) by (nonlinear_arith)
            requires
                0 <= l1 < b128(),
                0 <= x < p80,
        ;
        assert(h2 * b128() <= l1 * x);
        assert(h2 < p80) by (nonlinear_arith)
            requires
                h2 * b128() < b128() * p80,
                b128() > 0,
        ;
        assert(h1 * x <= (0x1_0000_0000int - 1) * (p80 - 1)) by (nonlinear_arith)
            requires
                0 <= h1 < 0x1_0000_0000int,
                0 <= x < p80,
        ;
        assert((h1 * x + h2) * b128() + l2 == d * d * x) by (nonlinear_arith)
            requires
                h1 * b128() + l1 == d * d,
                h2 * b128() + l2 == l1 * x,
        ;
    }
    (h1 * x + h2, l2)
}

/// Compares two limb pairs as 256-bit integers.
pub fn u256_le(x: (u128, u128), y: (u128, u128)) -> (r: bool)
    ensures
        r == (u256_val(x) <= u256_val(y)),
{
    proof {
        if x.0 < y.0 {
            assert(x.0 * b128() + b128() <= y.0 * b128()) by (nonlinear_arith)
                requires
                    x.0 < y.0,
            ;
        }
        if y.0 < x.0 {
            assert(y.0 * b128() + b128() <= x.0 * b128()) by (nonlinear_arith)
                requires
                    y.0 < x.0,
            ;
        }
    }
    if x.0 < y.0 {
        true
    } else if x.0 == y.0 {
        x.1 <= y.1
    } else {
        false
    }
}

} // verus!
