//! Top-k selection over scored corpus rows.
//!
//! `spec_top_k` defines the selection deterministically: `min(k, n)` rounds,
//! each picking the lowest-index unused row of maximal similarity (so rows
//! of exactly equal similarity come out in ascending corpus order).  The
//! selection lemma proves the ranking facts every caller needs: the result's
//! length, distinctness, descending similarity order, and that every
//! selected row's similarity is at least that of every unselected row.

use vstd::prelude::*;
use vstd::set_lib::lemma_int_range;
use vstd::set_lib::lemma_len_subset;
use vstd::set_lib::set_int_range;
use vstd::set::axiom_set_insert_len;
use crate::rank::row_ge;
use crate::rank::row_gt;
use crate::rank::row_wf;
use crate::rank::row_ge_exec;
use crate::rank::lemma_row_ge_refl;
use crate::rank::lemma_row_ge_total;
use crate::rank::lemma_row_ge_trans;
use crate::rank::SCORE_MAX;

verus! {

/// Scores as mathematical integers.
pub open spec fn map_score(s: Seq<u128>) -> Seq<int> {
    s.map_values(|x: u128| x as int)
}

/// Well-formed score rows: dots and squared norms aligned, each row sound.
pub open spec fn rows_wf(ds: Seq<int>, hs: Seq<int>) -> bool {
    &&& ds.len() == hs.len()
    &&& forall|i: int| 0 <= i < ds.len() ==> row_wf(ds[i], hs[i])
}

/// The lowest-index unused row of maximal similarity among indices at least
/// `i`, carrying the best index seen so far (`-1` for none yet).
pub open spec fn argmax_from(ds: Seq<int>, hs: Seq<int>, used: Set<int>, best: int, i: int) -> int
    decreases ds.len() - i,
{
    if i < 0 || i >= ds.len() {
        best
    } else {
        let better = !used.contains(i) && (best < 0 || row_gt(ds[i], hs[i], ds[best], hs[best]));
        argmax_from(
            ds,
            hs,
            used,
            if better {
                i
            } else {
                best
            },
            i + 1,
        )
    }
}

/// The indices selected by `k` rounds of taking the best unused row.
pub open spec fn select_rec(ds: Seq<int>, hs: Seq<int>, used: Set<int>, k: nat) -> Seq<int>
    decreases k,
{
    if k == 0 {
        Seq::empty()
    } else {
        let m = argmax_from(ds, hs, used, -1, 0);
        if m < 0 {
            Seq::empty()
        } else {
            seq![m] + select_rec(ds, hs, used.insert(m), (k - 1) as nat)
        }
    }
}

/// The `min(k, n)` best rows, in descending similarity order, ties by
/// ascending index.
pub open spec fn spec_top_k(ds: Seq<int>, hs: Seq<int>, k: int) -> Seq<int> {
    select_rec(
        ds,
        hs,
        Set::empty(),
        (if k <= ds.len() {
            k
        } else {
            ds.len() as int
        }) as nat,
    )
}

/// What the scan for the best row guarantees: a valid unused index that is
/// at least as similar as the carried best and every unused index from `i`
/// on; `-1` only where none exists.
pub proof fn lemma_argmax(ds: Seq<int>, hs: Seq<int>, used: Set<int>, best: int, i: int)
    requires
        rows_wf(ds, hs),
        0 <= i,
        best == -1 || (0 <= best < ds.len() && !used.contains(best)),
    ensures
        ({
            let m = argmax_from(ds, hs, used, best, i);
            &&& m == -1 ==> best == -1 && (forall|j: int|
                i <= j < ds.len() ==> used.contains(j))
            &&& m != -1 ==> 0 <= m < ds.len() && !used.contains(m)
            &&& (m != -1 && best != -1) ==> row_ge(ds[m], hs[m], ds[best], hs[best])
            &&& forall|j: int|
                #![trigger used.contains(j)]
                i <= j < ds.len() && !used.contains(j) ==> {
                    let m = argmax_from(ds, hs, used, best, i);
                    row_ge(ds[m], hs[m], ds[j], hs[j])
                }
        }),
    decreases ds.len() - i,
{
    let m = argmax_from(ds, hs, used, best, i);
    if i >= ds.len() {
        if best != -1 {
            lemma_row_ge_refl(ds[best], hs[best]);
        }
    } else {
        let better = !used.contains(i) && (best < 0 || row_gt(ds[i], hs[i], ds[best], hs[best]));
        let nb = if better {
            i
        } else {
            best
        };
        lemma_argmax(ds, hs, used, nb, i + 1);
        assert(m == argmax_from(ds, hs, used, nb, i + 1));
        if better {
            assert(m != -1);
            if best != -1 {
                // The new carry beats the old one, and the result beats the
                // new carry.
                lemma_row_ge_total(ds[best], hs[best], ds[i], hs[i]);
                assert(row_ge(ds[i], hs[i], ds[best], hs[best]));
                lemma_row_ge_trans(ds[m], hs[m], ds[i], hs[i], ds[best], hs[best]);
            }
            assert forall|j: int|
                i <= j < ds.len() && !used.contains(j) implies row_ge(
                ds[m],
                hs[m],
                ds[j],
                hs[j],
            ) by {
                if j == i {
                    assert(row_ge(ds[m], hs[m], ds[nb], hs[nb]));
                }
            }
        } else {
            if !used.contains(i) {
                // Not better means the carried best is at least as similar.
                assert(best != -1);
                assert(!row_gt(ds[i], hs[i], ds[best], hs[best]));
                assert(row_ge(ds[best], hs[best], ds[i], hs[i]));
                assert(m != -1);
                assert forall|j: int|
                    i <= j < ds.len() && !used.contains(j) implies row_ge(
                    ds[m],
                    hs[m],
                    ds[j],
                    hs[j],
                ) by {
                    if j == i {
                        assert(row_ge(ds[m], hs[m], ds[best], hs[best]));
                        lemma_row_ge_trans(ds[m], hs[m], ds[best], hs[best], ds[i], hs[i]);
                    }
                }
            }
        }
    }
}

/// When fewer rows are used than exist, the scan finds one.
pub proof fn lemma_argmax_found(ds: Seq<int>, hs: Seq<int>, used: Set<int>)
    requires
        rows_wf(ds, hs),
        used.finite(),
        forall|u: int| used.contains(u) ==> 0 <= u < ds.len(),
        used.len() < ds.len(),
    ensures
        argmax_from(ds, hs, used, -1, 0) != -1,
{
    lemma_argmax(ds, hs, used, -1, 0);
    if argmax_from(ds, hs, used, -1, 0) == -1 {
        assert(set_int_range(0, ds.len() as int).subset_of(used));
        lemma_int_range(0, ds.len() as int);
        lemma_len_subset(set_int_range(0, ds.len() as int), used);
    }
}

/// The ranking facts of the selection: length, distinct valid indices,
/// descending similarity order, and dominance over every unselected row.
pub proof fn lemma_select_props(ds: Seq<int>, hs: Seq<int>, used: Set<int>, k: nat)
    requires
        rows_wf(ds, hs),
        used.finite(),
        forall|u: int| used.contains(u) ==> 0 <= u < ds.len(),
        k + used.len() <= ds.len(),
    ensures
        ({
            let r = select_rec(ds, hs, used, k);
            &&& r.len() == k
            &&& forall|t: int| 0 <= t < k ==> 0 <= #[trigger] r[t] < ds.len() && !used.contains(r[t])
            &&& forall|t1: int, t2: int| 0 <= t1 < t2 < k ==> r[t1] != r[t2]
            &&& forall|t1: int, t2: int|
                0 <= t1 <= t2 < k ==> row_ge(ds[#[trigger] r[t1]], hs[r[t1]], ds[#[trigger] r[t2]], hs[r[t2]])
            &&& forall|t: int, j: int|
                #![trigger r[t], used.contains(j)]
                0 <= t < k && 0 <= j < ds.len() && !used.contains(j) && !r.contains(j) ==> row_ge(
                    ds[r[t]],
                    hs[r[t]],
                    ds[j],
                    hs[j],
                )
        }),
    decreases k,
{
    if k > 0 {
        lemma_argmax_found(ds, hs, used);
        let m = argmax_from(ds, hs, used, -1, 0);
        lemma_argmax(ds, hs, used, -1, 0);
        let used2 = used.insert(m);
        axiom_set_insert_len(used, m);
        lemma_select_props(ds, hs, used2, (k - 1) as nat);
        let rest = select_rec(ds, hs, used2, (k - 1) as nat);
        let r = select_rec(ds, hs, used, k);
        assert(r == seq![m] + rest);
        assert(r[0] == m);
        assert forall|t: int| 1 <= t < k implies r[t] == rest[t - 1] by {}
        assert forall|t1: int, t2: int|
            0 <= t1 <= t2 < k implies row_ge(ds[r[t1]], hs[r[t1]], ds[r[t2]], hs[r[t2]]) by {
            if t1 == 0 {
                if t2 == 0 {
                    lemma_row_ge_refl(ds[m], hs[m]);
                } else {
                    assert(!used2.contains(rest[t2 - 1]));
                    assert(!used.contains(rest[t2 - 1]));
                    assert(row_ge(ds[m], hs[m], ds[rest[t2 - 1]], hs[rest[t2 - 1]]));
                }
            }
        }
        assert forall|t: int, j: int|
            0 <= t < k && 0 <= j < ds.len() && !used.contains(j) && !r.contains(j) implies row_ge(
            ds[r[t]],
            hs[r[t]],
            ds[j],
            hs[j],
        ) by {
            assert(r[0] == m);
            if t == 0 {
                assert(row_ge(ds[m], hs[m], ds[j], hs[j]));
            } else {
                assert(j != m);
                assert(!used2.contains(j));
                assert(!rest.contains(j)) by {
                    if rest.contains(j) {
                        let t0 = choose|t0: int| 0 <= t0 < rest.len() && rest[t0] == j;
                        assert(r[t0 + 1] == j);
                        assert(r.contains(j));
                    }
                }
            }
        }
    }
}

/// Selects the indices of the `min(k, n)` best-scoring rows, best first.
#[verifier::loop_isolation(false)]
pub fn select_top_k(ds: &Vec<u128>, hs: &Vec<u128>, k: usize) -> (r: Vec<usize>)
    requires
        ds@.len() == hs@.len(),
        forall|i: int| 0 <= i < ds@.len() ==> ds@[i] <= SCORE_MAX && hs@[i] <= SCORE_MAX,
        rows_wf(map_score(ds@), map_score(hs@)),
    ensures
        r@.map_values(|u: usize| u as int) == spec_top_k(map_score(ds@), map_score(hs@), k as int),
        forall|t: int| 0 <= t < r@.len() ==> r@[t] < ds@.len(),
{
    let ghost dsi = map_score(ds@);
    let ghost hsi = map_score(hs@);
    let n = ds.len();
    let kk = if k < n {
        k
    } else {
        n
    };
    let mut used: Vec<bool> = Vec::new();
    let mut j: usize = 0;
    while j < n
        invariant
            j <= n,
            used@.len() == j,
            forall|i: int| 0 <= i < j ==> !used@[i],
        decreases n - j,
    {
        used.push(false);
        j = j + 1;
    }
    let mut out: Vec<usize> = Vec::new();
    proof {
        assert(bool_set(used@) =~= Set::<int>::empty());
    }
    while out.len() < kk
        invariant
            kk <= n,
            n == ds@.len(),
            used@.len() == n,
            out@.len() <= kk,
            bool_set(used@).finite(),
            bool_set(used@).len() == out@.len(),
            forall|u: int| bool_set(used@).contains(u) ==> 0 <= u < n,
            forall|t: int| 0 <= t < out@.len() ==> out@[t] < n,
            select_rec(dsi, hsi, Set::empty(), kk as nat) == out@.map_values(|u: usize| u as int)
                + select_rec(dsi, hsi, bool_set(used@), (kk - out@.len()) as nat),
        decreases kk - out@.len(),
    {
        let ghost uset = bool_set(used@);
        proof {
            lemma_argmax_found(dsi, hsi, uset);
            lemma_argmax(dsi, hsi, uset, -1, 0);
        }
        let mut best: usize = n;
        let mut i: usize = 0;
        while i < n
            invariant
                i <= n,
                best == n || (best < n && !used@[best as int]),
                argmax_from(dsi, hsi, uset, -1, 0) == argmax_from(
                    dsi,
                    hsi,
                    uset,
                    if best == n {
                        -1
                    } else {
                        best as int
                    },
                    i as int,
                ),
            decreases n - i,
        {
            let better = if !used[i] {
                if best == n {
                    true
                } else {
                    !row_ge_exec(ds[best], hs[best], ds[i], hs[i])
                }
            } else {
                false
            };
            proof {
                assert(uset.contains(i as int) == used@[i as int]);
            }
            if better {
                best = i;
            }
            i = i + 1;
        }
        proof {
            assert(argmax_from(dsi, hsi, uset, -1, 0) == (if best == n {
                -1int
            } else {
                best as int
            }));
            assert(best != n);
        }
        let ghost m = best as int;
        used[best] = true;
        out.push(best);
        proof {
            assert(bool_set(used@) =~= uset.insert(m));
            axiom_set_insert_len(uset, m);
            assert(out@.map_values(|u: usize| u as int) =~= out@.drop_last().map_values(
                |u: usize| u as int,
            ).push(m));
            assert(select_rec(dsi, hsi, uset, (kk - out@.len() + 1) as nat) == seq![m]
                + select_rec(dsi, hsi, uset.insert(m), (kk - out@.len()) as nat));
            assert(out@.drop_last().map_values(|u: usize| u as int).push(m) + select_rec(
                dsi,
                hsi,
                uset.insert(m),
                (kk - out@.len()) as nat,
            ) =~= out@.drop_last().map_values(|u: usize| u as int) + (seq![m] + select_rec(
                dsi,
                hsi,
                uset.insert(m),
                (kk - out@.len()) as nat,
            )));
        }
    }
    proof {
        assert(select_rec(dsi, hsi, bool_set(used@), 0) =~= Seq::<int>::empty());
        assert(out@.map_values(|u: usize| u as int) + Seq::<int>::empty() =~= out@.map_values(
            |u: usize| u as int,
        ));
        assert(spec_top_k(dsi, hsi, k as int) == select_rec(dsi, hsi, Set::empty(), kk as nat));
    }
    out
}

/// The set of indices marked used.
pub open spec fn bool_set(u: Seq<bool>) -> Set<int> {
    Set::new(|i: int| 0 <= i < u.len() && u[i])
}

} // verus!
