//! Similarity ordering and confidence rounding.
//!
//! A scored corpus row is a pair `(d, x)`: the dot product of the query
//! vector with the row, and the row's squared norm.  With the query's
//! squared norm `nq` fixed, the cosine similarity of the row is
//! `d / sqrt(nq * x)` (zero when either norm is zero).  Because all values
//! are nonnegative, similarities compare exactly by cross multiplication of
//! squares: `d1 / sqrt(nq * x1) >= d2 / sqrt(nq * x2)` iff
//! `d1^2 * x2 >= d2^2 * x1`, and no rounding enters the ranking.
//!
//! The reported confidence is the similarity rounded half-up to two decimal
//! places, as the integer `round(100 * d / sqrt(nq * x))`: the largest
//! `t <= 100` with `(2t - 1)^2 * nq * x <= (200 d)^2`.

use vstd::prelude::*;
use vstd::arithmetic::mul::lemma_mul_inequality;
use vstd::arithmetic::mul::lemma_mul_inequality_converse;
use crate::wideint::sq_mul;
use crate::wideint::u256_le;
use crate::wideint::u256_val;
use crate::wideint::wide_mul;

verus! {

/// Upper bound on every dot product and squared norm handled here: the
/// square of the weight-sum bound.
pub const SCORE_MAX: u128 = 0x4_0000_0000_0000_0000;

/// A scored row is well formed when a positive dot product comes with a
/// positive squared norm (a row orthogonal to the query has dot zero).
pub open spec fn row_wf(d: int, x: int) -> bool {
    d >= 0 && x >= 0 && (d > 0 ==> x > 0)
}

/// Whether row `(d1, x1)` has similarity at least that of row `(d2, x2)`,
/// the query's squared norm being common to both and cancelled.
pub open spec fn row_ge(d1: int, x1: int, d2: int, x2: int) -> bool {
    if d2 <= 0 {
        true
    } else if d1 <= 0 {
        false
    } else {
        d1 * d1 * x2 >= d2 * d2 * x1
    }
}

/// Strictly greater similarity.
pub open spec fn row_gt(d1: int, x1: int, d2: int, x2: int) -> bool {
    !row_ge(d2, x2, d1, x1)
}

/// The similarity order is total.
pub proof fn lemma_row_ge_total(d1: int, x1: int, d2: int, x2: int)
    ensures
        row_ge(d1, x1, d2, x2) || row_ge(d2, x2, d1, x1),
{
}

/// The similarity order is reflexive.
pub proof fn lemma_row_ge_refl(d: int, x: int)
    ensures
        row_ge(d, x, d, x),
{
}

/// The similarity order is transitive on well-formed rows.
pub proof fn lemma_row_ge_trans(d1: int, x1: int, d2: int, x2: int, d3: int, x3: int)
    requires
        row_wf(d1, x1),
        row_wf(d2, x2),
        row_wf(d3, x3),
        row_ge(d1, x1, d2, x2),
        row_ge(d2, x2, d3, x3),
    ensures
        row_ge(d1, x1, d3, x3),
{
    if d3 > 0 {
        assert(d2 > 0);
        assert(d1 > 0);
        assert(x2 > 0);
        assert(d1 * d1 * x3 >= d3 * d3 * x1) by {
            assert((d1 * d1 * x2) * x3 >= (d2 * d2 * x1) * x3) by (nonlinear_arith)
                requires
                    d1 * d1 * x2 >= d2 * d2 * x1,
                    x3 >= 0,
            ;
            assert((d2 * d2 * x3) * x1 >= (d3 * d3 * x2) * x1) by (nonlinear_arith)
                requires
                    d2 * d2 * x3 >= d3 * d3 * x2,
                    x1 >= 0,
            ;
            assert((d1 * d1 * x2) * x3 == (d1 * d1 * x3) * x2) by (nonlinear_arith);
            assert((d2 * d2 * x1) * x3 == (d2 * d2 * x3) * x1) by (nonlinear_arith);
            assert((d3 * d3 * x2) * x1 == (d3 * d3 * x1) * x2) by (nonlinear_arith);
            lemma_mul_inequality_converse(d3 * d3 * x1, d1 * d1 * x3, x2);
        }
    }
}

/// Compares two scored rows exactly, by cross multiplication of squares in
/// 256-bit arithmetic.
pub fn row_ge_exec(d1: u128, x1: u128, d2: u128, x2: u128) -> (r: bool)
    requires
        d1 <= SCORE_MAX,
        x1 <= SCORE_MAX,
        d2 <= SCORE_MAX,
        x2 <= SCORE_MAX,
    ensures
        r == row_ge(d1 as int, x1 as int, d2 as int, x2 as int),
{
    if d2 == 0 {
        true
    } else if d1 == 0 {
        false
    } else {
        let lhs = sq_mul(d1, x2);
        let rhs = sq_mul(d2, x1);
        u256_le(rhs, lhs)
    }
}

/// Whether the similarity `d / sqrt(nq * x)` is at least `t - 1/2`
/// hundredths, i.e. rounds to `t` or more.
pub open spec fn conf_hits(d: int, nq: int, nx: int, t: int) -> bool {
    (2 * t - 1) * (2 * t - 1) * nq * nx <= 40000 * (d * d)
}

/// The largest `t' <= t` that is zero or hit by the similarity.
pub open spec fn conf_rec(d: int, nq: int, nx: int, t: int) -> int
    decreases t,
{
    if t <= 0 {
        0
    } else if conf_hits(d, nq, nx, t) {
        t
    } else {
        conf_rec(d, nq, nx, t - 1)
    }
}

/// The confidence of a scored row in hundredths: its similarity rounded
/// half-up to two decimal places, in `[0, 100]`.
pub open spec fn conf_of(d: int, nq: int, nx: int) -> int {
    if d <= 0 {
        0
    } else {
        conf_rec(d, nq, nx, 100)
    }
}

pub proof fn lemma_conf_rec_range(d: int, nq: int, nx: int, t: int)
    ensures
        0 <= conf_rec(d, nq, nx, t),
        conf_rec(d, nq, nx, t) <= t || t < 0,
    decreases t,
{
    if t > 0 && !conf_hits(d, nq, nx, t) {
        lemma_conf_rec_range(d, nq, nx, t - 1);
    }
}

/// The confidence lies in `[0, 100]`.
pub proof fn lemma_conf_range(d: int, nq: int, nx: int)
    ensures
        0 <= conf_of(d, nq, nx) <= 100,
{
    lemma_conf_rec_range(d, nq, nx, 100);
}

proof fn lemma_conf_rec_hit(d: int, nq: int, nx: int, t: int)
    requires
        t >= 1,
    ensures
        conf_rec(d, nq, nx, t) == 0 || conf_hits(d, nq, nx, conf_rec(d, nq, nx, t)),
    decreases t,
{
    if !conf_hits(d, nq, nx, t) {
        if t > 1 {
            lemma_conf_rec_hit(d, nq, nx, t - 1);
        } else {
            assert(conf_rec(d, nq, nx, 0) == 0);
        }
    }
}

proof fn lemma_conf_rec_reaches(d: int, nq: int, nx: int, t0: int, t: int)
    requires
        1 <= t0 <= t,
        conf_hits(d, nq, nx, t0),
    ensures
        conf_rec(d, nq, nx, t) >= t0,
    decreases t,
{
    if t > t0 && !conf_hits(d, nq, nx, t) {
        lemma_conf_rec_reaches(d, nq, nx, t0, t - 1);
    }
}

/// A row of at least the similarity of another rounds to at least the same
/// confidence, the query's squared norm being common.
pub proof fn lemma_conf_monotone(nq: int, d1: int, x1: int, d2: int, x2: int)
    requires
        nq >= 0,
        row_wf(d1, x1),
        row_wf(d2, x2),
        row_ge(d1, x1, d2, x2),
    ensures
        conf_of(d1, nq, x1) >= conf_of(d2, nq, x2),
{
    lemma_conf_rec_range(d1, nq, x1, 100);
    lemma_conf_rec_range(d2, nq, x2, 100);
    if d2 > 0 {
        assert(d1 > 0);
        let c2 = conf_rec(d2, nq, x2, 100);
        lemma_conf_rec_hit(d2, nq, x2, 100);
        if c2 >= 1 {
            assert(conf_hits(d2, nq, x2, c2));
            let m = (2 * c2 - 1) * (2 * c2 - 1);
            assert(m >= 0) by (nonlinear_arith)
                requires
                    m == (2 * c2 - 1) * (2 * c2 - 1),
            ;
            assert(conf_hits(d1, nq, x1, c2)) by {
                // Cross-multiply the hit at c2 with the similarity order.
                assert((m * nq * x1) * (d2 * d2) <= (m * nq * x2) * (d1 * d1))
                    by (nonlinear_arith)
                    requires
                        m >= 0,
                        nq >= 0,
                        d1 * d1 * x2 >= d2 * d2 * x1,
                ;
                assert((m * nq * x2) * (d1 * d1) <= (40000 * (d2 * d2)) * (d1 * d1))
                    by (nonlinear_arith)
                    requires
                        m * nq * x2 <= 40000 * (d2 * d2),
                        d1 > 0,
                ;
                assert((40000 * (d2 * d2)) * (d1 * d1) == (40000 * (d1 * d1)) * (d2 * d2))
                    by (nonlinear_arith);
                assert(d2 * d2 > 0) by (nonlinear_arith)
                    requires
                        d2 > 0,
                ;
                lemma_mul_inequality_converse(
                    m * nq * x1,
                    40000 * (d1 * d1),
                    d2 * d2,
                );
            }
            lemma_conf_rec_reaches(d1, nq, x1, c2, 100);
        }
    }
}

/// The confidence of a scored row, computed exactly as `conf_of` describes.
pub fn confidence(d: u128, nq: u128, nx: u128) -> (r: u32)
    requires
        d <= SCORE_MAX,
        nq <= SCORE_MAX,
        nx <= SCORE_MAX,
    ensures
        r as int == conf_of(d as int, nq as int, nx as int),
        r <= 100,
{
    if d == 0 {
        return 0;
    }
    let mut t: u32 = 100;
    while t > 0
        invariant
            t <= 100,
            d >= 1,
            d <= SCORE_MAX,
            nq <= SCORE_MAX,
            nx <= SCORE_MAX,
            conf_rec(d as int, nq as int, nx as int, 100) == conf_rec(
                d as int,
                nq as int,
                nx as int,
                t as int,
            ),
        decreases t,
    {
        proof {
            assert((2 * (t as int) - 1) * (2 * (t as int) - 1) <= 39601) by (nonlinear_arith)
                requires
                    1 <= t <= 100,
            ;
        }
        let m: u128 = (2 * (t as u128) - 1) * (2 * (t as u128) - 1);
        proof {
            lemma_mul_inequality(m as int, 39601, nq as int);
            assert(39601 * (nq as int) <= 39601 * SCORE_MAX);
        }
        let lhs_small: u128 = m * nq;
        let lhs = wide_mul(lhs_small, nx);
        proof {
            lemma_mul_inequality(d as int, SCORE_MAX as int, 200);
            assert(200 * (d as int) <= 200 * SCORE_MAX);
        }
        let rhs = wide_mul(200 * d, 200 * d);
        let hit = u256_le(lhs, rhs);
        proof {
            assert(u256_val(lhs) == (m * nq) * (nx as int));
            assert((m * nq) * (nx as int) == (2 * (t as int) - 1) * (2 * (t as int) - 1) * (
            nq as int) * (nx as int)) by (nonlinear_arith)
                requires
                    m == (2 * (t as int) - 1) * (2 * (t as int) - 1),
            ;
            assert((200 * (d as int)) * (200 * (d as int)) == 40000 * ((d as int) * (
            d as int))) by (nonlinear_arith);
            assert(hit == conf_hits(d as int, nq as int, nx as int, t as int));
        }
        if hit {
            return t;
        }
        t = t - 1;
    }
    0
}

} // verus!
