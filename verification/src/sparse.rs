//! Sparse weighted vectors over the vocabulary's column space.
//!
//! A vector is stored as parallel (column, value) arrays sorted by strictly
//! increasing column, holding only nonzero values; its mathematical view is
//! the dense sequence of all column values.  Dot products iterate over one
//! operand's nonzero columns only.

use vstd::prelude::*;
use vstd::arithmetic::mul::lemma_mul_upper_bound;

verus! {

/// Upper bound on the sum of the values of any vector handled here; it
/// keeps every dot product and squared norm below 2^66.
pub const WEIGHT_SUM_MAX: u128 = 0x2_0000_0000;

/// The sum of an integer sequence.
pub open spec fn sum_seq(s: Seq<int>) -> int
    decreases s.len(),
{
    if s.len() == 0 {
        0
    } else {
        sum_seq(s.drop_last()) + s.last()
    }
}

/// The dot product of two integer sequences of equal length.
pub open spec fn dot_seq(a: Seq<int>, b: Seq<int>) -> int
    decreases a.len(),
{
    if a.len() == 0 || a.len() != b.len() {
        0
    } else {
        dot_seq(a.drop_last(), b.drop_last()) + a.last() * b.last()
    }
}

/// The squared Euclidean norm of an integer sequence.
pub open spec fn norm_sq(a: Seq<int>) -> int {
    dot_seq(a, a)
}

/// Whether every element is nonnegative.
pub open spec fn all_nonneg(s: Seq<int>) -> bool {
    forall|i: int| 0 <= i < s.len() ==> s[i] >= 0
}

/// A sequence of unsigned values as mathematical integers.
pub open spec fn map_int(s: Seq<u64>) -> Seq<int> {
    s.map_values(|x: u64| x as int)
}

pub proof fn lemma_sum_nonneg(s: Seq<int>)
    requires
        all_nonneg(s),
    ensures
        sum_seq(s) >= 0,
    decreases s.len(),
{
    if s.len() > 0 {
        lemma_sum_nonneg(s.drop_last());
    }
}

pub proof fn lemma_sum_take_le(s: Seq<int>, k: int)
    requires
        all_nonneg(s),
        0 <= k <= s.len(),
    ensures
        sum_seq(s.take(k)) <= sum_seq(s),
    decreases s.len(),
{
    if k == s.len() {
        assert(s.take(k) =~= s);
    } else {
        assert(s.take(k) =~= s.drop_last().take(k));
        lemma_sum_take_le(s.drop_last(), k);
    }
}

pub proof fn lemma_sum_le(a: Seq<int>, b: Seq<int>)
    requires
        a.len() == b.len(),
        forall|i: int| 0 <= i < a.len() ==> a[i] <= b[i],
    ensures
        sum_seq(a) <= sum_seq(b),
    decreases a.len(),
{
    if a.len() > 0 {
        lemma_sum_le(a.drop_last(), b.drop_last());
    }
}

pub proof fn lemma_sum_update(a: Seq<int>, j: int, x: int)
    requires
        0 <= j < a.len(),
    ensures
        sum_seq(a.update(j, x)) == sum_seq(a) - a[j] + x,
    decreases a.len(),
{
    if j == a.len() - 1 {
        assert(a.update(j, x).drop_last() =~= a.drop_last());
    } else {
        assert(a.update(j, x).drop_last() =~= a.drop_last().update(j, x));
        lemma_sum_update(a.drop_last(), j, x);
    }
}

pub proof fn lemma_dot_nonneg(a: Seq<int>, b: Seq<int>)
    requires
        all_nonneg(a),
        all_nonneg(b),
    ensures
        dot_seq(a, b) >= 0,
    decreases a.len(),
{
    if a.len() > 0 && a.len() == b.len() {
        lemma_dot_nonneg(a.drop_last(), b.drop_last());
        assert(a.last() * b.last() >= 0) by (nonlinear_arith)
            requires
                a.last() >= 0,
                b.last() >= 0,
        ;
    }
}

pub proof fn lemma_dot_le_sums(a: Seq<int>, b: Seq<int>)
    requires
        a.len() == b.len(),
        all_nonneg(a),
        all_nonneg(b),
    ensures
        dot_seq(a, b) <= sum_seq(a) * sum_seq(b),
    decreases a.len(),
{
    if a.len() == 0 {
    } else {
        lemma_dot_le_sums(a.drop_last(), b.drop_last());
        lemma_sum_nonneg(a.drop_last());
        lemma_sum_nonneg(b.drop_last());
        assert(dot_seq(a.drop_last(), b.drop_last()) + a.last() * b.last() <= (sum_seq(
            a.drop_last(),
        ) + a.last()) * (sum_seq(b.drop_last()) + b.last())) by (nonlinear_arith)
            requires
                dot_seq(a.drop_last(), b.drop_last()) <= sum_seq(a.drop_last()) * sum_seq(
                    b.drop_last(),
                ),
                sum_seq(a.drop_last()) >= 0,
                sum_seq(b.drop_last()) >= 0,
                a.last() >= 0,
                b.last() >= 0,
        ;
    }
}

pub proof fn lemma_term_le_dot(a: Seq<int>, b: Seq<int>, i: int)
    requires
        a.len() == b.len(),
        all_nonneg(a),
        all_nonneg(b),
        0 <= i < a.len(),
    ensures
        a[i] * b[i] <= dot_seq(a, b),
    decreases a.len(),
{
    if i == a.len() - 1 {
        lemma_dot_nonneg(a.drop_last(), b.drop_last());
    } else {
        lemma_term_le_dot(a.drop_last(), b.drop_last(), i);
        assert(a.last() * b.last() >= 0) by (nonlinear_arith)
            requires
                a.last() >= 0,
                b.last() >= 0,
        ;
    }
}

pub proof fn lemma_dot_update(a: Seq<int>, b: Seq<int>, j: int, x: int)
    requires
        a.len() == b.len(),
        0 <= j < a.len(),
    ensures
        dot_seq(a.update(j, x), b) == dot_seq(a, b) + (x - a[j]) * b[j],
    decreases a.len(),
{
    if j == a.len() - 1 {
        assert(a.update(j, x).drop_last() =~= a.drop_last());
        assert((x - a[j]) * b[j] == x * b[j] - a[j] * b[j]) by (nonlinear_arith);
    } else {
        assert(a.update(j, x).drop_last() =~= a.drop_last().update(j, x));
        lemma_dot_update(a.drop_last(), b.drop_last(), j, x);
    }
}

/// A sparse vector: parallel (column, value) arrays, sorted by strictly
/// increasing column, values all nonzero.
#[derive(Debug, Clone)]
pub struct SparseVec {
    pub cols: Vec<usize>,
    pub vals: Vec<u64>,
}

/// Well-formedness of the parallel arrays over `v` columns.
pub open spec fn sv_wf(cols: Seq<usize>, vals: Seq<u64>, v: int) -> bool {
    &&& cols.len() == vals.len()
    &&& forall|i: int| 0 <= i < cols.len() ==> cols[i] < v
    &&& forall|i: int, j: int| 0 <= i < j < cols.len() ==> cols[i] < cols[j]
    &&& forall|i: int| 0 <= i < vals.len() ==> vals[i] >= 1
}

/// The value stored at column `j`, or zero where no entry exists.
pub open spec fn sv_at(cols: Seq<usize>, vals: Seq<u64>, j: int) -> int {
    if exists|i: int| 0 <= i < cols.len() && cols[i] == j {
        vals[choose|i: int| 0 <= i < cols.len() && cols[i] == j] as int
    } else {
        0
    }
}

/// The dense view over `v` columns.
pub open spec fn sv_dense(cols: Seq<usize>, vals: Seq<u64>, v: int) -> Seq<int> {
    Seq::new(v as nat, |j: int| sv_at(cols, vals, j))
}

impl SparseVec {
    /// Well-formedness over `v` columns.
    pub open spec fn wf(self, v: int) -> bool {
        sv_wf(self.cols@, self.vals@, v)
    }

    /// The dense view over `v` columns.
    pub open spec fn dense(self, v: int) -> Seq<int> {
        sv_dense(self.cols@, self.vals@, v)
    }
}

/// Appending an entry whose column exceeds all present columns changes the
/// stored value at that column alone.
pub proof fn lemma_sv_at_push(cols: Seq<usize>, vals: Seq<u64>, c: usize, x: u64, j: int)
    requires
        cols.len() == vals.len(),
        forall|i: int| 0 <= i < cols.len() ==> cols[i] < c,
        forall|i: int, k: int| 0 <= i < k < cols.len() ==> cols[i] < cols[k],
    ensures
        sv_at(cols.push(c), vals.push(x), j) == if j == c {
            x as int
        } else {
            sv_at(cols, vals, j)
        },
{
    let cs = cols.push(c);
    let vs = vals.push(x);
    if j == c {
        assert(cs[cols.len() as int] == c);
        let i = choose|i: int| 0 <= i < cs.len() && cs[i] == j;
        assert(i == cols.len());
    } else {
        if exists|i: int| 0 <= i < cs.len() && cs[i] == j {
            let i = choose|i: int| 0 <= i < cs.len() && cs[i] == j;
            assert(i < cols.len());
            assert(cols[i] == j);
            let i0 = choose|i0: int| 0 <= i0 < cols.len() && cols[i0] == j;
            assert(i0 == i);
            assert(sv_at(cols, vals, j) == vals[i] as int);
        } else {
            assert forall|i: int| 0 <= i < cols.len() implies cols[i] != j by {
                assert(cs[i] == cols[i]);
            }
            lemma_sv_at_absent(cols, vals, j);
        }
    }
}

/// No entry means a zero value.
pub proof fn lemma_sv_at_absent(cols: Seq<usize>, vals: Seq<u64>, j: int)
    requires
        forall|i: int| 0 <= i < cols.len() ==> cols[i] != j,
    ensures
        sv_at(cols, vals, j) == 0,
{
}

/// The dense view is nonnegative.
pub proof fn lemma_sv_dense_nonneg(cols: Seq<usize>, vals: Seq<u64>, v: int)
    requires
        cols.len() == vals.len(),
    ensures
        all_nonneg(sv_dense(cols, vals, v)),
{
    assert forall|j: int| 0 <= j < v implies sv_dense(cols, vals, v)[j] >= 0 by {
        if exists|i: int| 0 <= i < cols.len() && cols[i] == j {
            let i = choose|i: int| 0 <= i < cols.len() && cols[i] == j;
            assert(vals[i] >= 0);
        }
    }
}

/// The sum of the stored values equals the sum of the dense view.
pub proof fn lemma_sv_sum(cols: Seq<usize>, vals: Seq<u64>, v: int)
    requires
        sv_wf(cols, vals, v),
    ensures
        sum_seq(sv_dense(cols, vals, v)) == sum_seq(map_int(vals)),
    decreases cols.len(),
{
    if cols.len() == 0 {
        assert forall|j: int| 0 <= j < v implies sv_dense(cols, vals, v)[j] == 0 by {
            lemma_sv_at_absent(cols, vals, j);
        }
        lemma_sum_all_zero(sv_dense(cols, vals, v));
    } else {
        let cs = cols.drop_last();
        let vs = vals.drop_last();
        let c = cols.last();
        let x = vals.last();
        assert(cols =~= cs.push(c));
        assert(vals =~= vs.push(x));
        lemma_sv_sum(cs, vs, v);
        let dpre = sv_dense(cs, vs, v);
        let dfull = sv_dense(cols, vals, v);
        assert forall|j: int| 0 <= j < v implies dfull[j] == dpre.update(c as int, x as int)[j] by {
            lemma_sv_at_push(cs, vs, c, x, j);
        }
        assert(dfull =~= dpre.update(c as int, x as int));
        lemma_sum_update(dpre, c as int, x as int);
        lemma_sv_at_absent(cs, vs, c as int);
        assert(map_int(vals).drop_last() =~= map_int(vs));
    }
}

/// The dot product with an all-zero left operand is zero.
pub proof fn lemma_dot_all_zero(a: Seq<int>, b: Seq<int>)
    requires
        a.len() == b.len(),
        forall|i: int| 0 <= i < a.len() ==> a[i] == 0,
    ensures
        dot_seq(a, b) == 0,
    decreases a.len(),
{
    if a.len() > 0 {
        lemma_dot_all_zero(a.drop_last(), b.drop_last());
    }
}

/// The Cauchy-Schwarz inequality for nonnegative integer vectors: the
/// square of a dot product never exceeds the product of the squared norms.
pub proof fn lemma_cauchy_schwarz(a: Seq<int>, b: Seq<int>)
    requires
        a.len() == b.len(),
        all_nonneg(a),
        all_nonneg(b),
    ensures
        dot_seq(a, b) * dot_seq(a, b) <= norm_sq(a) * norm_sq(b),
    decreases a.len(),
{
    if a.len() == 0 {
    } else {
        lemma_cauchy_schwarz(a.drop_last(), b.drop_last());
        let ad = dot_seq(a.drop_last(), b.drop_last());
        let p = norm_sq(a.drop_last());
        let q = norm_sq(b.drop_last());
        let x = a.last();
        let y = b.last();
        lemma_dot_nonneg(a.drop_last(), b.drop_last());
        lemma_dot_nonneg(a.drop_last(), a.drop_last());
        lemma_dot_nonneg(b.drop_last(), b.drop_last());
        let u = p * (y * y);
        let v = q * (x * x);
        // (u + v)^2 >= 4uv, since (u - v)^2 >= 0.
        assert((u + v) * (u + v) >= 4 * (u * v)) by (nonlinear_arith);
        // 4uv = 4 (pq)(x^2 y^2) >= 4 (ad^2)(x^2 y^2) = (2 ad x y)^2.
        assert(u * v == (p * q) * ((x * x) * (y * y))) by (nonlinear_arith)
            requires
                u == p * (y * y),
                v == q * (x * x),
        ;
        assert((p * q) * ((x * x) * (y * y)) >= (ad * ad) * ((x * x) * (y * y)))
            by (nonlinear_arith)
            requires
                p * q >= ad * ad,
                x >= 0,
                y >= 0,
        ;
        assert(4 * ((ad * ad) * ((x * x) * (y * y))) == (2 * (ad * (x * y))) * (2 * (ad * (x
            * y)))) by (nonlinear_arith);
        // Both sides are nonnegative, so the square root order carries over.
        assert(u >= 0 && v >= 0 && ad * (x * y) >= 0) by (nonlinear_arith)
            requires
                u == p * (y * y),
                v == q * (x * x),
                p >= 0,
                q >= 0,
                ad >= 0,
                x >= 0,
                y >= 0,
        ;
        assert(u + v >= 2 * (ad * (x * y))) by (nonlinear_arith)
            requires
                (u + v) * (u + v) >= (2 * (ad * (x * y))) * (2 * (ad * (x * y))),
                u + v >= 0,
                2 * (ad * (x * y)) >= 0,
        ;
        // Assemble: (ad + xy)^2 <= (p + x^2)(q + y^2).
        assert((ad + x * y) * (ad + x * y) == ad * ad + 2 * (ad * (x * y)) + (x * y) * (x * y))
            by (nonlinear_arith);
        assert((p + x * x) * (q + y * y) == p * q + p * (y * y) + q * (x * x) + (x * x) * (y
            * y)) by (nonlinear_arith);
        assert((x * y) * (x * y) == (x * x) * (y * y)) by (nonlinear_arith);
        assert((ad + x * y) * (ad + x * y) <= (p + x * x) * (q + y * y));
    }
}

/// A positive dot product forces a positive squared norm on both sides.
pub proof fn lemma_dot_pos_norm(a: Seq<int>, b: Seq<int>)
    requires
        a.len() == b.len(),
        all_nonneg(a),
        all_nonneg(b),
        dot_seq(a, b) > 0,
    ensures
        dot_seq(b, b) > 0,
        dot_seq(a, a) > 0,
    decreases a.len(),
{
    if a.len() > 0 {
        lemma_dot_nonneg(a.drop_last(), b.drop_last());
        if a.last() * b.last() > 0 {
            assert(a.last() > 0 && b.last() > 0) by (nonlinear_arith)
                requires
                    a.last() * b.last() > 0,
                    a.last() >= 0,
                    b.last() >= 0,
            ;
            lemma_dot_nonneg(a.drop_last(), a.drop_last());
            lemma_dot_nonneg(b.drop_last(), b.drop_last());
            assert(a.last() * a.last() > 0 && b.last() * b.last() > 0) by (nonlinear_arith)
                requires
                    a.last() > 0,
                    b.last() > 0,
            ;
        } else {
            lemma_dot_pos_norm(a.drop_last(), b.drop_last());
            assert(a.last() * a.last() >= 0 && b.last() * b.last() >= 0) by (nonlinear_arith);
        }
    }
}

/// A column is stored exactly when its dense value is nonzero.
pub proof fn lemma_sv_support(cols: Seq<usize>, vals: Seq<u64>, v: int, j: int)
    requires
        sv_wf(cols, vals, v),
        0 <= j < v,
        j <= usize::MAX,
    ensures
        sv_dense(cols, vals, v)[j] != 0 <==> cols.contains(j as usize),
{
    if cols.contains(j as usize) {
        let i = choose|i: int| 0 <= i < cols.len() && cols[i] == j as usize;
        assert(exists|i: int| 0 <= i < cols.len() && cols[i] == j);
        let i2 = choose|i2: int| 0 <= i2 < cols.len() && cols[i2] == j;
        assert(vals[i2] >= 1);
    } else {
        assert forall|i: int| 0 <= i < cols.len() implies cols[i] != j by {
            if cols[i] == j {
                assert(cols.contains(j as usize));
            }
        }
        lemma_sv_at_absent(cols, vals, j);
    }
}

/// The sum of an all-zero sequence is zero.
pub proof fn lemma_sum_all_zero(s: Seq<int>)
    requires
        forall|i: int| 0 <= i < s.len() ==> s[i] == 0,
    ensures
        sum_seq(s) == 0,
    decreases s.len(),
{
    if s.len() > 0 {
        lemma_sum_all_zero(s.drop_last());
    }
}

impl SparseVec {
    /// Looks the value at column `j` up; zero where no entry exists.
    pub fn get(&self, j: usize, v: Ghost<int>) -> (r: u64)
        requires
            self.wf(v@),
            j < v@,
        ensures
            r as int == self.dense(v@)[j as int],
    {
        let mut i: usize = 0;
        while i < self.cols.len()
            invariant
                self.wf(v@),
                i <= self.cols@.len(),
                forall|k: int| 0 <= k < i ==> self.cols@[k] != j,
            decreases self.cols@.len() - i,
        {
            if self.cols[i] == j {
                proof {
                    let i0 = choose|i0: int|
                        0 <= i0 < self.cols@.len() && self.cols@[i0] == j as int;
                    assert(i0 == i);
                }
                return self.vals[i];
            }
            i = i + 1;
        }
        proof {
            lemma_sv_at_absent(self.cols@, self.vals@, j as int);
        }
        0
    }
}

/// Builds the sparse form of a dense vector of weights.
#[verifier::loop_isolation(false)]
pub fn from_dense(d: &Vec<u64>) -> (r: SparseVec)
    ensures
        r.wf(d@.len() as int),
        r.dense(d@.len() as int) == map_int(d@),
{
    let mut cols: Vec<usize> = Vec::new();
    let mut vals: Vec<u64> = Vec::new();
    let mut j: usize = 0;
    while j < d.len()
        invariant
            j <= d@.len(),
            sv_wf(cols@, vals@, j as int),
            forall|i: int| 0 <= i < cols@.len() ==> cols@[i] < j,
            forall|jj: int| 0 <= jj < j ==> sv_at(cols@, vals@, jj) == d@[jj],
        decreases d@.len() - j,
    {
        if d[j] > 0 {
            let ghost cs = cols@;
            let ghost vs = vals@;
            cols.push(j);
            vals.push(d[j]);
            proof {
                assert forall|jj: int| 0 <= jj < j + 1 implies sv_at(cols@, vals@, jj) == d@[jj] by {
                    lemma_sv_at_push(cs, vs, j, d@[j as int], jj);
                }
            }
        } else {
            proof {
                lemma_sv_at_absent(cols@, vals@, j as int);
            }
        }
        j = j + 1;
    }
    let r = SparseVec { cols, vals };
    proof {
        assert(r.dense(d@.len() as int) =~= map_int(d@));
    }
    r
}

/// The exact dot product of two sparse vectors over `v` columns, iterating
/// over the first operand's nonzero columns only.
#[verifier::loop_isolation(false)]
pub fn sv_dot(q: &SparseVec, h: &SparseVec, v: Ghost<int>) -> (r: u128)
    requires
        q.wf(v@),
        h.wf(v@),
        sum_seq(q.dense(v@)) <= WEIGHT_SUM_MAX,
        sum_seq(h.dense(v@)) <= WEIGHT_SUM_MAX,
    ensures
        r as int == dot_seq(q.dense(v@), h.dense(v@)),
        r <= WEIGHT_SUM_MAX * WEIGHT_SUM_MAX,
{
    let ghost qd = q.dense(v@);
    let ghost hd = h.dense(v@);
    proof {
        lemma_sv_dense_nonneg(q.cols@, q.vals@, v@);
        lemma_sv_dense_nonneg(h.cols@, h.vals@, v@);
        lemma_sv_sum(q.cols@, q.vals@, v@);
    }
    proof {
        let d0 = sv_dense(q.cols@.take(0), q.vals@.take(0), v@);
        assert forall|j: int| 0 <= j < v@ implies d0[j] == 0 by {
            lemma_sv_at_absent(q.cols@.take(0), q.vals@.take(0), j);
        }
        lemma_dot_all_zero(d0, hd);
    }
    let mut acc: u128 = 0;
    let mut i: usize = 0;
    while i < q.cols.len()
        invariant
            i <= q.cols@.len(),
            acc as int == dot_seq(sv_dense(q.cols@.take(i as int), q.vals@.take(i as int), v@), hd),
            acc <= WEIGHT_SUM_MAX * WEIGHT_SUM_MAX,
        decreases q.cols@.len() - i,
    {
        let ghost csp = q.cols@.take(i as int);
        let ghost vsp = q.vals@.take(i as int);
        let ghost dpre = sv_dense(csp, vsp, v@);
        let c = q.cols[i];
        let x = q.vals[i];
        let hv = h.get(c, v);
        proof {
            // The partial dense vector gains the value x at column c.
            assert(q.cols@.take(i as int + 1) =~= csp.push(c));
            assert(q.vals@.take(i as int + 1) =~= vsp.push(x));
            let dnext = sv_dense(q.cols@.take(i as int + 1), q.vals@.take(i as int + 1), v@);
            assert forall|jj: int| 0 <= jj < v@ implies dnext[jj] == dpre.update(
                c as int,
                x as int,
            )[jj] by {
                lemma_sv_at_push(csp, vsp, c, x, jj);
            }
            assert(dnext =~= dpre.update(c as int, x as int));
            lemma_sv_at_absent(csp, vsp, c as int);
            lemma_dot_update(dpre, hd, c as int, x as int);
            // Bound the new accumulator: the partial vector stays below the
            // full vector's sum, and every dense value is at most its sum.
            lemma_sv_dense_nonneg(csp.push(c), vsp.push(x), v@);
            lemma_sv_sum(csp.push(c), vsp.push(x), v@);
            assert(map_int(q.vals@.take(i as int + 1)) =~= map_int(q.vals@).take(i as int + 1));
            lemma_sum_take_le(map_int(q.vals@), i as int + 1);
            lemma_dot_le_sums(dnext, hd);
            lemma_sum_nonneg(dnext);
            lemma_sum_nonneg(hd);
            lemma_mul_upper_bound(
                sum_seq(dnext),
                WEIGHT_SUM_MAX as int,
                sum_seq(hd),
                WEIGHT_SUM_MAX as int,
            );
            lemma_dot_nonneg(dnext, hd);
        }
        acc = acc + (x as u128) * (hv as u128);
        i = i + 1;
    }
    proof {
        assert(q.cols@.take(q.cols@.len() as int) =~= q.cols@);
        assert(q.vals@.take(q.vals@.len() as int) =~= q.vals@);
    }
    acc
}

} // verus!
