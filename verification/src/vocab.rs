//! Vocabulary fitting and TF-IDF transformation.
//!
//! Fitting scans the tokenized corpus once: every distinct token, in order
//! of first appearance, becomes a vocabulary column, and its document
//! frequency is the number of corpus documents containing it.  The
//! transformation maps any token list to a sparse vector over the fixed
//! columns: raw term frequency times the column's fixed-point IDF weight;
//! tokens outside the vocabulary contribute nothing.

use vstd::prelude::*;
use crate::fixed::IDF_LIMIT;
use crate::fixed::idf_fixed;
use crate::fixed::idf_weight;
use crate::sparse::SparseVec;
use crate::sparse::all_nonneg;
use crate::sparse::from_dense;
use crate::sparse::lemma_sum_all_zero;
use crate::sparse::map_int;
use crate::sparse::sum_seq;
use crate::tokenize::tokens_view;

verus! {

/// Upper bound on the number of tokens of one document accepted by the
/// transformation; with `IDF_LIMIT` it bounds every weight sum by 2^33.
pub const DOC_TOKENS_MAX: usize = 131072;

/// A document is a token list; a corpus is a sequence of documents.
pub open spec fn docs_view(ds: Seq<Vec<String>>) -> Seq<Seq<Seq<char>>> {
    ds.map_values(|d: Vec<String>| tokens_view(d@))
}

/// Pairwise distinctness.
pub open spec fn distinct_seq(vs: Seq<Seq<char>>) -> bool {
    forall|i: int, j: int| 0 <= i < j < vs.len() ==> vs[i] != vs[j]
}

/// Extends a vocabulary with a document's unseen tokens, in order.
pub open spec fn add_doc(vs: Seq<Seq<char>>, ts: Seq<Seq<char>>) -> Seq<Seq<char>>
    decreases ts.len(),
{
    if ts.len() == 0 {
        vs
    } else {
        let pre = add_doc(vs, ts.drop_last());
        if pre.contains(ts.last()) {
            pre
        } else {
            pre.push(ts.last())
        }
    }
}

/// The vocabulary of a corpus: every distinct token in order of first
/// appearance.
pub open spec fn spec_vocab(docs: Seq<Seq<Seq<char>>>) -> Seq<Seq<char>>
    decreases docs.len(),
{
    if docs.len() == 0 {
        Seq::empty()
    } else {
        add_doc(spec_vocab(docs.drop_last()), docs.last())
    }
}

/// The document frequency of a token: how many documents contain it.
pub open spec fn df_of(docs: Seq<Seq<Seq<char>>>, t: Seq<char>) -> int
    decreases docs.len(),
{
    if docs.len() == 0 {
        0
    } else {
        df_of(docs.drop_last(), t) + if docs.last().contains(t) {
            1int
        } else {
            0
        }
    }
}

/// The fixed-point IDF weights of a corpus, one per vocabulary column.
pub open spec fn spec_idf(docs: Seq<Seq<Seq<char>>>) -> Seq<int> {
    Seq::new(
        spec_vocab(docs).len(),
        |j: int| idf_fixed(docs.len() as int, df_of(docs, spec_vocab(docs)[j])),
    )
}

/// The number of occurrences of a token in a token list.
pub open spec fn count_tok(ts: Seq<Seq<char>>, t: Seq<char>) -> int
    decreases ts.len(),
{
    if ts.len() == 0 {
        0
    } else {
        count_tok(ts.drop_last(), t) + if ts.last() == t {
            1int
        } else {
            0
        }
    }
}

/// The term-frequency vector of a token list over a vocabulary.
pub open spec fn tf_vec(vocab: Seq<Seq<char>>, ts: Seq<Seq<char>>) -> Seq<int> {
    Seq::new(vocab.len(), |j: int| count_tok(ts, vocab[j]))
}

/// The TF-IDF weight vector of a token list: term frequency times the
/// column's IDF weight.
pub open spec fn weight_vec(vocab: Seq<Seq<char>>, idf: Seq<int>, ts: Seq<Seq<char>>) -> Seq<int> {
    Seq::new(vocab.len(), |j: int| count_tok(ts, vocab[j]) * idf[j])
}

/// Extending a vocabulary keeps it distinct, keeps its prefix, and adds
/// exactly the document's tokens.
pub proof fn lemma_add_doc(vs: Seq<Seq<char>>, ts: Seq<Seq<char>>)
    requires
        distinct_seq(vs),
    ensures
        distinct_seq(add_doc(vs, ts)),
        forall|t: Seq<char>|
            add_doc(vs, ts).contains(t) <==> (vs.contains(t) || ts.contains(t)),
    decreases ts.len(),
{
    if ts.len() > 0 {
        lemma_add_doc(vs, ts.drop_last());
        let pre = add_doc(vs, ts.drop_last());
        assert forall|t: Seq<char>|
            add_doc(vs, ts).contains(t) <==> (vs.contains(t) || ts.contains(t)) by {
            if ts.contains(t) {
                let i = choose|i: int| 0 <= i < ts.len() && ts[i] == t;
                if i < ts.len() - 1 {
                    assert(ts.drop_last().contains(t)) by {
                        assert(ts.drop_last()[i] == t);
                    }
                }
            }
            if pre.contains(ts.last()) {
            } else {
                let r = pre.push(ts.last());
                if r.contains(t) {
                    let i = choose|i: int| 0 <= i < r.len() && r[i] == t;
                    if i < pre.len() {
                        assert(pre.contains(t)) by {
                            assert(pre[i] == t);
                        }
                    } else {
                        assert(ts.contains(t)) by {
                            assert(ts[ts.len() - 1] == t);
                        }
                    }
                }
                if pre.contains(t) {
                    let i = choose|i: int| 0 <= i < pre.len() && pre[i] == t;
                    assert(r[i] == t);
                }
                if t == ts.last() {
                    assert(r[pre.len() as int] == t);
                }
            }
        }
        if !pre.contains(ts.last()) {
            let r = pre.push(ts.last());
            assert forall|i: int, j: int| 0 <= i < j < r.len() implies r[i] != r[j] by {
                if j == r.len() - 1 {
                    assert(!pre.contains(r[j]));
                    if r[i] == r[j] {
                        assert(pre[i] == r[j]);
                        assert(pre.contains(r[j]));
                    }
                }
            }
        }
    }
}

/// The vocabulary is distinct, and holds exactly the corpus's tokens.
pub proof fn lemma_spec_vocab(docs: Seq<Seq<Seq<char>>>)
    ensures
        distinct_seq(spec_vocab(docs)),
        forall|t: Seq<char>|
            spec_vocab(docs).contains(t) <==> exists|i: int|
                0 <= i < docs.len() && #[trigger] docs[i].contains(t),
    decreases docs.len(),
{
    if docs.len() == 0 {
    } else {
        lemma_spec_vocab(docs.drop_last());
        lemma_add_doc(spec_vocab(docs.drop_last()), docs.last());
        assert forall|t: Seq<char>|
            spec_vocab(docs).contains(t) <==> exists|i: int|
                0 <= i < docs.len() && #[trigger] docs[i].contains(t) by {
            if spec_vocab(docs).contains(t) {
                if spec_vocab(docs.drop_last()).contains(t) {
                    let i = choose|i: int|
                        0 <= i < docs.len() - 1 && #[trigger] docs.drop_last()[i].contains(t);
                    assert(docs[i].contains(t));
                } else {
                    assert(docs.last().contains(t));
                    assert(docs[docs.len() - 1].contains(t));
                }
            }
            if exists|i: int| 0 <= i < docs.len() && #[trigger] docs[i].contains(t) {
                let i = choose|i: int| 0 <= i < docs.len() && #[trigger] docs[i].contains(t);
                if i < docs.len() - 1 {
                    assert(docs.drop_last()[i].contains(t));
                    assert(spec_vocab(docs.drop_last()).contains(t));
                } else {
                    assert(docs.last().contains(t));
                }
            }
        }
    }
}

/// A token some document contains has document frequency at least one; no
/// frequency exceeds the corpus size.
pub proof fn lemma_df_bounds(docs: Seq<Seq<Seq<char>>>, t: Seq<char>)
    ensures
        0 <= df_of(docs, t) <= docs.len(),
        (exists|i: int| 0 <= i < docs.len() && #[trigger] docs[i].contains(t)) ==> df_of(docs, t)
            >= 1,
    decreases docs.len(),
{
    if docs.len() > 0 {
        lemma_df_bounds(docs.drop_last(), t);
        if exists|i: int| 0 <= i < docs.len() && #[trigger] docs[i].contains(t) {
            let i = choose|i: int| 0 <= i < docs.len() && #[trigger] docs[i].contains(t);
            if i < docs.len() - 1 {
                assert(docs.drop_last()[i].contains(t));
            }
        }
    }
}

/// A token the list contains occurs at least once.
pub proof fn lemma_count_pos(ts: Seq<Seq<char>>, t: Seq<char>)
    requires
        ts.contains(t),
    ensures
        count_tok(ts, t) >= 1,
    decreases ts.len(),
{
    lemma_count_le_len(ts, t);
    if ts.last() == t {
        lemma_count_le_len(ts.drop_last(), t);
    } else {
        let i = choose|i: int| 0 <= i < ts.len() && ts[i] == t;
        assert(ts.drop_last()[i] == t);
        lemma_count_pos(ts.drop_last(), t);
    }
}

/// A token occurs at most as often as the list is long.
pub proof fn lemma_count_le_len(ts: Seq<Seq<char>>, t: Seq<char>)
    ensures
        0 <= count_tok(ts, t) <= ts.len(),
    decreases ts.len(),
{
    if ts.len() > 0 {
        lemma_count_le_len(ts.drop_last(), t);
    }
}

/// Sums add pointwise.
proof fn lemma_sum_pointwise_add(a: Seq<int>, b: Seq<int>, c: Seq<int>)
    requires
        a.len() == b.len() == c.len(),
        forall|j: int| 0 <= j < a.len() ==> c[j] == a[j] + b[j],
    ensures
        sum_seq(c) == sum_seq(a) + sum_seq(b),
    decreases a.len(),
{
    if a.len() > 0 {
        lemma_sum_pointwise_add(a.drop_last(), b.drop_last(), c.drop_last());
    }
}

/// Over a distinct vocabulary, at most one column matches a token.
proof fn lemma_sum_indicator(vocab: Seq<Seq<char>>, t: Seq<char>, ind: Seq<int>)
    requires
        distinct_seq(vocab),
        ind.len() == vocab.len(),
        forall|j: int| 0 <= j < ind.len() ==> #[trigger] ind[j] == if vocab[j] == t {
            1int
        } else {
            0
        },
    ensures
        0 <= sum_seq(ind) <= 1,
    decreases vocab.len(),
{
    if vocab.len() > 0 {
        lemma_sum_indicator(vocab.drop_last(), t, ind.drop_last());
        if vocab.last() == t {
            // No earlier column can match the same token.
            assert forall|j: int| 0 <= j < vocab.len() - 1 implies ind.drop_last()[j] == 0 by {
                assert(vocab[j] != vocab[vocab.len() - 1]);
            }
            lemma_sum_all_zero(ind.drop_last());
        }
    }
}

/// The total term frequency over a distinct vocabulary is at most the
/// number of tokens: each token feeds at most one column.
pub proof fn lemma_tf_sum_le(vocab: Seq<Seq<char>>, ts: Seq<Seq<char>>)
    requires
        distinct_seq(vocab),
    ensures
        0 <= sum_seq(tf_vec(vocab, ts)) <= ts.len(),
    decreases ts.len(),
{
    if ts.len() == 0 {
        assert forall|j: int| 0 <= j < vocab.len() implies tf_vec(vocab, ts)[j] == 0 by {}
        lemma_sum_all_zero(tf_vec(vocab, ts));
    } else {
        lemma_tf_sum_le(vocab, ts.drop_last());
        let ind = Seq::new(vocab.len(), |j: int| if vocab[j] == ts.last() { 1int } else { 0 });
        lemma_sum_indicator(vocab, ts.last(), ind);
        assert forall|j: int| 0 <= j < vocab.len() implies tf_vec(vocab, ts)[j] == tf_vec(
            vocab,
            ts.drop_last(),
        )[j] + ind[j] by {
            assert(count_tok(ts, vocab[j]) == count_tok(ts.drop_last(), vocab[j]) + if ts.last()
                == vocab[j] {
                1int
            } else {
                0
            });
        }
        lemma_sum_pointwise_add(tf_vec(vocab, ts.drop_last()), ind, tf_vec(vocab, ts));
    }
}

/// The weight sum is at most `IDF_LIMIT` per token.
pub proof fn lemma_weight_sum_le(vocab: Seq<Seq<char>>, idf: Seq<int>, ts: Seq<Seq<char>>)
    requires
        distinct_seq(vocab),
        idf.len() == vocab.len(),
        forall|j: int| 0 <= j < idf.len() ==> 0 <= #[trigger] idf[j] < IDF_LIMIT,
    ensures
        0 <= sum_seq(weight_vec(vocab, idf, ts)) <= (IDF_LIMIT as int) * ts.len(),
        all_nonneg(weight_vec(vocab, idf, ts)),
{
    let w = weight_vec(vocab, idf, ts);
    let cap = Seq::new(vocab.len(), |j: int| (IDF_LIMIT as int) * count_tok(ts, vocab[j]));
    assert forall|j: int| 0 <= j < w.len() implies 0 <= w[j] && w[j] <= cap[j] by {
        lemma_count_le_len(ts, vocab[j]);
        assert(0 <= count_tok(ts, vocab[j]) * idf[j] <= (IDF_LIMIT as int) * count_tok(
            ts,
            vocab[j],
        )) by (nonlinear_arith)
            requires
                0 <= idf[j] < IDF_LIMIT,
                count_tok(ts, vocab[j]) >= 0,
        ;
    }
    lemma_sum_le(w, cap);
    lemma_sum_scaled(tf_vec(vocab, ts), cap, IDF_LIMIT as int);
    lemma_tf_sum_le(vocab, ts);
    assert((IDF_LIMIT as int) * sum_seq(tf_vec(vocab, ts)) <= (IDF_LIMIT as int) * ts.len())
        by (nonlinear_arith)
        requires
            sum_seq(tf_vec(vocab, ts)) <= ts.len(),
            IDF_LIMIT >= 0,
    ;
    assert forall|j: int| 0 <= j < w.len() implies w[j] >= 0 by {
        lemma_count_le_len(ts, vocab[j]);
        assert(count_tok(ts, vocab[j]) * idf[j] >= 0) by (nonlinear_arith)
            requires
                count_tok(ts, vocab[j]) >= 0,
                idf[j] >= 0,
        ;
    }
    lemma_sum_nonneg_local(w);
}

/// A sequence scaled elementwise sums to the scaled sum.
proof fn lemma_sum_scaled(base: Seq<int>, scaled: Seq<int>, c: int)
    requires
        base.len() == scaled.len(),
        forall|j: int| 0 <= j < base.len() ==> scaled[j] == c * base[j],
    ensures
        sum_seq(scaled) == c * sum_seq(base),
    decreases base.len(),
{
    if base.len() == 0 {
        assert(c * 0 == 0) by (nonlinear_arith);
    } else {
        lemma_sum_scaled(base.drop_last(), scaled.drop_last(), c);
        assert(c * sum_seq(base.drop_last()) + c * base.last() == c * (sum_seq(base.drop_last())
            + base.last())) by (nonlinear_arith);
    }
}

proof fn lemma_sum_nonneg_local(s: Seq<int>)
    requires
        forall|j: int| 0 <= j < s.len() ==> s[j] >= 0,
    ensures
        sum_seq(s) >= 0,
    decreases s.len(),
{
    if s.len() > 0 {
        lemma_sum_nonneg_local(s.drop_last());
    }
}

/// Sums respect elementwise order.
proof fn lemma_sum_le(a: Seq<int>, b: Seq<int>)
    requires
        a.len() == b.len(),
        forall|j: int| 0 <= j < a.len() ==> a[j] <= b[j],
    ensures
        sum_seq(a) <= sum_seq(b),
    decreases a.len(),
{
    if a.len() > 0 {
        lemma_sum_le(a.drop_last(), b.drop_last());
    }
}

/// Finds a token's column in the vocabulary, scanning columns in order.
fn find_token(vs: &Vec<String>, t: &String) -> (r: Option<usize>)
    ensures
        match r {
            Some(j) => j < vs@.len() && vs@[j as int]@ == t@,
            None => forall|j: int| 0 <= j < vs@.len() ==> vs@[j]@ != t@,
        },
{
    let mut i: usize = 0;
    while i < vs.len()
        invariant
            i <= vs@.len(),
            forall|k: int| 0 <= k < i ==> vs@[k]@ != t@,
        decreases vs@.len() - i,
    {
        if vs[i].eq(t) {
            return Some(i);
        }
        i = i + 1;
    }
    None
}

/// Whether a document contains a token.
fn doc_has_token(doc: &Vec<String>, t: &String) -> (r: bool)
    ensures
        r == tokens_view(doc@).contains(t@),
{
    match find_token(doc, t) {
        Some(j) => {
            proof {
                assert(tokens_view(doc@)[j as int] == t@);
            }
            true
        },
        None => {
            proof {
                if tokens_view(doc@).contains(t@) {
                    let j = choose|j: int|
                        0 <= j < tokens_view(doc@).len() && tokens_view(doc@)[j] == t@;
                    assert(doc@[j]@ == t@);
                }
            }
            false
        },
    }
}

/// Learns the vocabulary of a tokenized corpus: every distinct token, in
/// order of first appearance.
#[verifier::loop_isolation(false)]
pub fn build_vocab(docs: &Vec<Vec<String>>) -> (r: Vec<String>)
    ensures
        tokens_view(r@) == spec_vocab(docs_view(docs@)),
{
    let ghost dv = docs_view(docs@);
    let mut vs: Vec<String> = Vec::new();
    let mut i: usize = 0;
    while i < docs.len()
        invariant
            i <= docs@.len(),
            tokens_view(vs@) == spec_vocab(dv.take(i as int)),
        decreases docs@.len() - i,
    {
        let doc = &docs[i];
        let ghost base = spec_vocab(dv.take(i as int));
        let ghost tv = tokens_view(doc@);
        let mut k: usize = 0;
        while k < doc.len()
            invariant
                k <= doc@.len(),
                tv == tokens_view(doc@),
                base == spec_vocab(dv.take(i as int)),
                tokens_view(vs@) == add_doc(base, tv.take(k as int)),
            decreases doc@.len() - k,
        {
            proof {
                assert(tv.take(k as int + 1).drop_last() =~= tv.take(k as int));
                assert(tv.take(k as int + 1).last() == tv[k as int]);
                assert(tv[k as int] == doc@[k as int]@);
            }
            match find_token(&vs, &doc[k]) {
                Some(j) => {
                    proof {
                        assert(tokens_view(vs@)[j as int] == doc@[k as int]@);
                        assert(tokens_view(vs@).contains(tv[k as int]));
                    }
                },
                None => {
                    proof {
                        if tokens_view(vs@).contains(tv[k as int]) {
                            let j = choose|j: int|
                                0 <= j < tokens_view(vs@).len() && tokens_view(vs@)[j] == tv[
                                    k as int
                                ];
                            assert(vs@[j]@ == doc@[k as int]@);
                        }
                    }
                    let ghost old_vs = vs@;
                    vs.push(doc[k].clone());
                    proof {
                        assert(tokens_view(vs@) =~= tokens_view(old_vs).push(tv[k as int]));
                    }
                },
            }
            k = k + 1;
        }
        proof {
            assert(tv.take(doc@.len() as int) =~= tv);
            assert(dv.take(i as int + 1).drop_last() =~= dv.take(i as int));
            assert(dv.take(i as int + 1).last() == dv[i as int]);
            assert(dv[i as int] == tokens_view(docs@[i as int]@));
        }
        i = i + 1;
    }
    proof {
        assert(dv.take(docs@.len() as int) =~= dv);
    }
    vs
}

/// Counts, for every vocabulary column, the documents containing its token.
#[verifier::loop_isolation(false)]
pub fn compute_df(docs: &Vec<Vec<String>>, vs: &Vec<String>) -> (r: Vec<u64>)
    requires
        docs@.len() <= u64::MAX,
    ensures
        r@.len() == vs@.len(),
        forall|j: int|
            0 <= j < vs@.len() ==> r@[j] as int == df_of(docs_view(docs@), tokens_view(vs@)[j]),
{
    let ghost dv = docs_view(docs@);
    let mut r: Vec<u64> = Vec::new();
    let mut j: usize = 0;
    while j < vs.len()
        invariant
            j <= vs@.len(),
            r@.len() == j,
            forall|jj: int| 0 <= jj < j ==> r@[jj] as int == df_of(dv, tokens_view(vs@)[jj]),
        decreases vs@.len() - j,
    {
        let ghost t = vs@[j as int]@;
        let mut count: u64 = 0;
        let mut i: usize = 0;
        while i < docs.len()
            invariant
                i <= docs@.len(),
                count as int == df_of(dv.take(i as int), t),
                count <= i,
            decreases docs@.len() - i,
        {
            proof {
                assert(dv.take(i as int + 1).drop_last() =~= dv.take(i as int));
                assert(dv.take(i as int + 1).last() == dv[i as int]);
                assert(dv[i as int] == tokens_view(docs@[i as int]@));
            }
            if doc_has_token(&docs[i], &vs[j]) {
                count = count + 1;
            }
            i = i + 1;
        }
        proof {
            assert(dv.take(docs@.len() as int) =~= dv);
        }
        r.push(count);
        j = j + 1;
    }
    r
}

/// Maps a dense vector of term frequencies and the IDF weights to the
/// sparse TF-IDF vector of a token list.
#[verifier::loop_isolation(false)]
pub fn transform(vs: &Vec<String>, idf: &Vec<u64>, toks: &Vec<String>) -> (r: SparseVec)
    requires
        distinct_seq(tokens_view(vs@)),
        idf@.len() == vs@.len(),
        forall|j: int| 0 <= j < idf@.len() ==> #[trigger] idf@[j] < IDF_LIMIT,
        toks@.len() <= DOC_TOKENS_MAX,
    ensures
        r.wf(vs@.len() as int),
        r.dense(vs@.len() as int) == weight_vec(tokens_view(vs@), map_int(idf@), tokens_view(
            toks@,
        )),
        sum_seq(r.dense(vs@.len() as int)) <= (IDF_LIMIT as int) * toks@.len(),
{
    let ghost vv = tokens_view(vs@);
    let ghost tv = tokens_view(toks@);
    let v = vs.len();
    let mut counts: Vec<u64> = Vec::new();
    let mut j: usize = 0;
    while j < v
        invariant
            j <= v,
            counts@.len() == j,
            forall|jj: int| 0 <= jj < j ==> counts@[jj] == 0,
        decreases v - j,
    {
        counts.push(0);
        j = j + 1;
    }
    proof {
        assert forall|jj: int| 0 <= jj < v implies counts@[jj] as int == count_tok(
            tv.take(0),
            vv[jj],
        ) by {}
    }
    let mut i: usize = 0;
    while i < toks.len()
        invariant
            i <= toks@.len(),
            counts@.len() == v,
            v == vs@.len(),
            forall|jj: int|
                0 <= jj < v ==> #[trigger] counts@[jj] as int == count_tok(
                    tv.take(i as int),
                    vv[jj],
                ),
        decreases toks@.len() - i,
    {
        proof {
            assert(tv.take(i as int + 1).drop_last() =~= tv.take(i as int));
            assert(tv.take(i as int + 1).last() == tv[i as int]);
            assert(tv[i as int] == toks@[i as int]@);
            assert forall|jj: int| 0 <= jj < v implies count_tok(tv.take(i as int), vv[jj])
                <= i by {
                lemma_count_le_len(tv.take(i as int), vv[jj]);
            }
        }
        match find_token(vs, &toks[i]) {
            Some(j0) => {
                proof {
                    assert(vv[j0 as int] == tv[i as int]);
                }
                let c = counts[j0];
                counts[j0] = c + 1;
                proof {
                    assert forall|jj: int| 0 <= jj < v implies counts@[jj] as int == count_tok(
                        tv.take(i as int + 1),
                        vv[jj],
                    ) by {
                        if jj != j0 {
                            assert(vv[jj] != vv[j0 as int]);
                        }
                    }
                }
            },
            None => {
                proof {
                    assert forall|jj: int| 0 <= jj < v implies counts@[jj] as int == count_tok(
                        tv.take(i as int + 1),
                        vv[jj],
                    ) by {
                        assert(vs@[jj]@ != toks@[i as int]@);
                    }
                }
            },
        }
        i = i + 1;
    }
    proof {
        assert(tv.take(toks@.len() as int) =~= tv);
    }
    let mut weights: Vec<u64> = Vec::new();
    let mut j2: usize = 0;
    while j2 < v
        invariant
            j2 <= v,
            weights@.len() == j2,
            counts@.len() == v,
            v == vs@.len(),
            forall|jj: int|
                0 <= jj < v ==> #[trigger] counts@[jj] as int == count_tok(tv, vv[jj]),
            forall|jj: int|
                0 <= jj < j2 ==> #[trigger] weights@[jj] as int == count_tok(tv, vv[jj]) * (
                idf@[jj] as int),
        decreases v - j2,
    {
        proof {
            lemma_count_le_len(tv, vv[j2 as int]);
            assert((counts@[j2 as int] as int) * (idf@[j2 as int] as int) <= 0x2_0000_0000)
                by (nonlinear_arith)
                requires
                    0 <= (counts@[j2 as int] as int) && (counts@[j2 as int] as int)
                        <= DOC_TOKENS_MAX,
                    0 <= (idf@[j2 as int] as int) && (idf@[j2 as int] as int) < IDF_LIMIT,
                    DOC_TOKENS_MAX == 131072,
                    IDF_LIMIT == 65536,
            ;
        }
        let w = counts[j2] * idf[j2];
        weights.push(w);
        j2 = j2 + 1;
    }
    let r = from_dense(&weights);
    proof {
        assert(map_int(weights@) =~= weight_vec(vv, map_int(idf@), tv));
        lemma_weight_sum_le(vv, map_int(idf@), tv);
    }
    r
}

} // verus!
