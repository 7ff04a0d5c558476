//! Fixed-point inverse document frequency.
//!
//! The IDF weight of a token is `ln((1 + N) / (1 + df)) + 1`, where `N` is
//! the corpus size and `df` the token's document frequency.  It is computed
//! here as an exact integer function: the weight scaled by `IDF_SCALE`, with
//! the logarithm obtained from the binary exponent of the ratio and sixteen
//! binary digits of the mantissa's base-two logarithm extracted by repeated
//! squaring.  Every weight lies in `[IDF_SCALE, IDF_LIMIT)`.

use vstd::prelude::*;
use vstd::arithmetic::div_mod::lemma_div_is_ordered;
use vstd::arithmetic::div_mod::lemma_div_by_multiple;
use vstd::arithmetic::div_mod::lemma_multiply_divide_le;
use vstd::arithmetic::div_mod::lemma_multiply_divide_lt;
use vstd::arithmetic::mul::lemma_mul_inequality;
use vstd::arithmetic::mul::lemma_mul_upper_bound;
use vstd::arithmetic::power2::pow2;
use vstd::arithmetic::power2::lemma_pow2_adds;
use vstd::arithmetic::power2::lemma_pow2_pos;
use vstd::arithmetic::power2::lemma_pow2_strictly_increases;
use vstd::arithmetic::power2::lemma2_to64;

verus! {

/// One unit of IDF weight: the fixed-point scale.
pub const IDF_SCALE: u64 = 1024;

/// Exclusive upper bound on every fixed-point IDF weight.
pub const IDF_LIMIT: u64 = 65536;

/// 2^32, the fixed-point scale of the mantissa during digit extraction.
pub const MANT_ONE: u128 = 0x1_0000_0000;

/// `ln(2) * IDF_SCALE * 2^16`, rounded: converts a Q16 base-two logarithm
/// to a base-e logarithm in `IDF_SCALE` units.
pub const LN2_Q16: u128 = 726818;

/// `floor(log2(num / den))` for `1 <= den <= num`.
pub open spec fn ilog2_ratio(num: int, den: int) -> int
    decreases num - den,
{
    if den >= 1 && 2 * den <= num {
        1 + ilog2_ratio(num, 2 * den)
    } else {
        0
    }
}

/// `steps` binary digits of `log2(y / 2^32)` for `y` in `[2^32, 2^33)`,
/// extracted most significant first by repeated squaring, as an integer
/// in `[0, 2^steps)`.
pub open spec fn log2_frac(y: int, steps: nat) -> int
    decreases steps,
{
    if steps == 0 {
        0
    } else {
        let y2 = (y * y) / (MANT_ONE as int);
        if y2 >= 2 * MANT_ONE {
            pow2((steps - 1) as nat) + log2_frac(y2 / 2, (steps - 1) as nat)
        } else {
            log2_frac(y2, (steps - 1) as nat)
        }
    }
}

/// The fixed-point IDF weight for corpus size `n` and document frequency
/// `df`: `(ln((1 + n) / (1 + df)) + 1) * IDF_SCALE`, computed on sixteen
/// fractional bits of the base-two logarithm and rounded to the scale.
pub open spec fn idf_fixed(n: int, df: int) -> int {
    let num = n + 1;
    let den = df + 1;
    let k = ilog2_ratio(num, den);
    let m = (num * MANT_ONE) / (den * pow2(k as nat) as int);
    let lg = k * 0x1_0000 + log2_frac(m, 16);
    IDF_SCALE + (lg * LN2_Q16 + 0x200_0000) / 0x400_0000
}

/// The fixed-point IDF weight, computed exactly as `idf_fixed` describes.
#[verifier::loop_isolation(false)]
pub fn idf_weight(n: u64, df: u64) -> (r: u64)
    requires
        1 <= df <= n,
    ensures
        r == idf_fixed(n as int, df as int),
        IDF_SCALE <= r < IDF_LIMIT,
{
    let num: u128 = n as u128 + 1;
    let den: u128 = df as u128 + 1;
    let mut den_s: u128 = den;
    let mut k: u64 = 0;
    proof {
        lemma2_to64();
    }
    while 2 * den_s <= num
        invariant
            2 <= den <= num <= 0x1_0000_0000_0000_0000,
            1 <= den_s,
            den_s == den * pow2(k as nat),
            den_s <= num,
            ilog2_ratio(num as int, den as int) == k + ilog2_ratio(num as int, den_s as int),
            k <= 63,
        decreases num - den_s,
    {
        proof {
            assert(ilog2_ratio(num as int, den_s as int) == 1 + ilog2_ratio(
                num as int,
                2 * (den_s as int),
            ));
            lemma2_to64();
            lemma_pow2_adds(k as nat, 1);
            assert((den as int) * ((pow2(k as nat) * 2) as int) == 2 * ((den as int) * (pow2(
                k as nat,
            ) as int))) by (nonlinear_arith);
            // den * pow2(k + 2) == 4 * den_s <= 2 * num <= pow2(65), and den >= 2,
            // so pow2(k + 3) <= pow2(65), hence k + 1 <= 63 after the step.
            assert(2 * pow2((k + 1) as nat) <= den * pow2((k + 1) as nat)) by (nonlinear_arith)
                requires
                    den >= 2,
                    pow2((k + 1) as nat) > 0,
            ;
            lemma_pow2_adds((k + 1) as nat, 1);
            if k + 2 > 64 {
                lemma_pow2_strictly_increases(64, (k + 2) as nat);
            }
        }
        den_s = 2 * den_s;
        k = k + 1;
    }
    proof {
        assert(ilog2_ratio(num as int, den_s as int) == 0);
        lemma_pow2_pos(k as nat);
    }
    let m: u128 = (num * MANT_ONE) / den_s;
    proof {
        lemma_mul_inequality(den_s as int, num as int, MANT_ONE as int);
        lemma_div_by_multiple(MANT_ONE as int, den_s as int);
        lemma_div_is_ordered(
            (den_s as int) * (MANT_ONE as int),
            (num as int) * (MANT_ONE as int),
            den_s as int,
        );
        assert((den_s as int) * (MANT_ONE as int) == (MANT_ONE as int) * (den_s as int));
        assert((num as int) * (MANT_ONE as int) < (den_s as int) * (2 * (MANT_ONE as int)))
            by (nonlinear_arith)
            requires
                num < 2 * den_s,
                MANT_ONE > 0,
        ;
        lemma_multiply_divide_lt(
            (num as int) * (MANT_ONE as int),
            den_s as int,
            2 * (MANT_ONE as int),
        );
    }
    let mut y: u128 = m;
    let mut frac: u64 = 0;
    let mut step: u64 = 0;
    while step < 16
        invariant
            MANT_ONE <= y < 2 * MANT_ONE,
            step <= 16,
            frac < pow2(step as nat),
            log2_frac(m as int, 16) == frac * pow2((16 - step) as nat) + log2_frac(
                y as int,
                (16 - step) as nat,
            ),
        decreases 16 - step,
    {
        proof {
            lemma2_to64();
            lemma_mul_upper_bound(
                y as int,
                2 * (MANT_ONE as int) - 1,
                y as int,
                2 * (MANT_ONE as int) - 1,
            );
            assert((2 * (MANT_ONE as int) - 1) * (2 * (MANT_ONE as int) - 1) < (MANT_ONE as int)
                * (MANT_ONE as int) * 4) by (nonlinear_arith)
                requires
                    MANT_ONE >= 1,
            ;
            assert((MANT_ONE as int) * (MANT_ONE as int) * 4 < 0x1_0000_0000_0000_0000_0000_0000_0000_0000int)
                by (nonlinear_arith)
                requires
                    MANT_ONE == 0x1_0000_0000,
            ;
            lemma_mul_inequality(MANT_ONE as int, y as int, MANT_ONE as int);
            lemma_mul_inequality(MANT_ONE as int, y as int, y as int);
            if step < 15 {
                lemma_pow2_strictly_increases(step as nat, 15);
            }
        }
        let y2: u128 = (y * y) / MANT_ONE;
        proof {
            // MANT_ONE^2 <= y * y, so MANT_ONE <= y2; y * y < (2 * MANT_ONE)^2,
            // so y2 < 4 * MANT_ONE.
            lemma_div_by_multiple(MANT_ONE as int, MANT_ONE as int);
            lemma_div_is_ordered(
                (MANT_ONE as int) * (MANT_ONE as int),
                (y as int) * (y as int),
                MANT_ONE as int,
            );
            assert((y as int) * (y as int) < (MANT_ONE as int) * (4 * (MANT_ONE as int)))
                by (nonlinear_arith)
                requires
                    y < 2 * MANT_ONE,
            ;
            lemma_multiply_divide_lt(
                (y as int) * (y as int),
                MANT_ONE as int,
                4 * (MANT_ONE as int),
            );
        }
        let ghost y_old: int = y as int;
        let ghost frac_old: int = frac as int;
        if y2 >= 2 * MANT_ONE {
            y = y2 / 2;
            frac = 2 * frac + 1;
        } else {
            y = y2;
            frac = 2 * frac;
        }
        proof {
            let rest = (16 - step - 1) as nat;
            lemma_pow2_adds(rest, 1);
            lemma2_to64();
            assert(log2_frac(y_old, (16 - step) as nat) == (if (y_old * y_old) / (
            MANT_ONE as int) >= 2 * MANT_ONE {
                pow2(rest) + log2_frac(((y_old * y_old) / (MANT_ONE as int)) / 2, rest)
            } else {
                log2_frac((y_old * y_old) / (MANT_ONE as int), rest)
            }));
            assert((2 * frac_old + 1) * pow2(rest) == frac_old * (pow2(rest) * 2) + pow2(rest))
                by (nonlinear_arith);
            assert((2 * frac_old) * pow2(rest) == frac_old * (pow2(rest) * 2))
                by (nonlinear_arith);
        }
        step = step + 1;
    }
    // frac == log2_frac(m, 16) < 2^16; k <= 63, so lg < 2^23.
    let lg: u64 = k * 65536 + frac;
    proof {
        lemma2_to64();
        lemma_mul_upper_bound(lg as int, 0x40_0000, LN2_Q16 as int, LN2_Q16 as int);
        lemma_multiply_divide_le((lg as int) * (LN2_Q16 as int) + 0x200_0000, 0x400_0000, 46000);
    }
    let ln_s: u64 = ((lg as u128 * LN2_Q16 + 0x200_0000) / 0x400_0000) as u64;
    proof {
        let nn = n as int;
        let dd = df as int;
        assert(k as int == ilog2_ratio(nn + 1, dd + 1));
        assert(den_s as int == (dd + 1) * (pow2(k as nat) as int));
        assert(m as int == ((nn + 1) * (MANT_ONE as int)) / ((dd + 1) * (pow2(
            k as nat,
        ) as int)));
        assert(log2_frac(y as int, 0) == 0);
        assert(pow2(0) == 1);
        assert(step == 16 && (16 - step) as nat == 0);
        assert(log2_frac(m as int, 16) == frac * pow2(0) + log2_frac(y as int, 0));
        assert(frac * pow2(0) == frac as int) by (nonlinear_arith)
            requires
                pow2(0) == 1,
        ;
        assert(frac as int == log2_frac(m as int, 16));
        assert(lg as int == k * 0x1_0000 + log2_frac(m as int, 16));
        assert(ln_s as int == ((lg as int) * (LN2_Q16 as int) + 0x200_0000) / 0x400_0000);
        assert(IDF_SCALE + ln_s == idf_fixed(nn, dd));
    }
    IDF_SCALE + ln_s
}

} // verus!
