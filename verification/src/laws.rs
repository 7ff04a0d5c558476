//! Laws of the matcher, proved from the contracts of its parts.

use vstd::prelude::*;
use crate::fixed::IDF_SCALE;
use crate::matcher::Needle;
use crate::matcher::TFIDFMatcher;
use crate::rank::conf_hits;
use crate::rank::conf_of;
use crate::rank::conf_rec;
use crate::rank::lemma_conf_monotone;
use crate::rank::lemma_conf_range;
use crate::rank::row_ge;
use crate::rank::row_wf;
use crate::select::lemma_select_props;
use crate::sparse::dot_seq;
use crate::sparse::lemma_dot_nonneg;
use crate::sparse::lemma_dot_pos_norm;
use crate::sparse::lemma_cauchy_schwarz;
use crate::sparse::lemma_sv_dense_nonneg;
use crate::sparse::lemma_term_le_dot;
use crate::sparse::all_nonneg;
use crate::sparse::norm_sq;
use crate::tokenize::doc_tokens;
use crate::tokenize::tokens_view;
use crate::vocab::count_tok;
use vstd::arithmetic::mul::lemma_mul_inequality_converse;
use crate::vocab::lemma_count_pos;
use crate::vocab::lemma_spec_vocab;
use crate::vocab::spec_vocab;

verus! {

/// The query vector and the score rows of a well-formed matcher are
/// nonnegative, and a positive dot product comes with a positive norm.
proof fn lemma_rows_sound(m: TFIDFMatcher, q: Seq<char>)
    requires
        m.wf(),
    ensures
        all_nonneg(m.query_weights(q)),
        crate::select::rows_wf(m.query_dots(q), m.corpus_norms()),
        all_nonneg(m.query_dots(q)),
        all_nonneg(m.corpus_norms()),
{
    let qd = m.query_weights(q);
    let v = m.vocab_len();
    assert forall|j: int| 0 <= j < qd.len() implies qd[j] >= 0 by {
        crate::vocab::lemma_count_le_len(doc_tokens(q, m.ngram_len()), tokens_view(m.vocab@)[j]);
        assert(count_tok(doc_tokens(q, m.ngram_len()), tokens_view(m.vocab@)[j]) * (
        m.idf@[j] as int) >= 0) by (nonlinear_arith)
            requires
                count_tok(doc_tokens(q, m.ngram_len()), tokens_view(m.vocab@)[j]) >= 0,
                m.idf@[j] >= 0,
        ;
    }
    assert forall|i: int| 0 <= i < m.rows@.len() implies row_wf(
        m.query_dots(q)[i],
        m.corpus_norms()[i],
    ) by {
        let rd = m.rows@[i].dense(v);
        lemma_sv_dense_nonneg(m.rows@[i].cols@, m.rows@[i].vals@, v);
        lemma_dot_nonneg(qd, rd);
        lemma_dot_nonneg(rd, rd);
        if dot_seq(qd, rd) > 0 {
            lemma_dot_pos_norm(qd, rd);
        }
    }
    assert forall|i: int| 0 <= i < m.query_dots(q).len() implies m.query_dots(q)[i] >= 0 by {
        assert(row_wf(m.query_dots(q)[i], m.corpus_norms()[i]));
    }
    assert forall|i: int| 0 <= i < m.corpus_norms().len() implies m.corpus_norms()[i] >= 0 by {
        assert(row_wf(m.query_dots(q)[i], m.corpus_norms()[i]));
    }
}

/// Self-similarity: a query equal verbatim to a corpus entry that yields at
/// least one token scores similarity exactly one against that entry, so the
/// first of at least one requested match carries full confidence.
pub proof fn lemma_self_match(m: TFIDFMatcher, q: Seq<char>, i0: int, k: int)
    requires
        m.wf(),
        0 <= i0 < m.haystack@.len(),
        q == m.haystack@[i0]@,
        doc_tokens(q, m.ngram_len()).len() > 0,
        k >= 1,
    ensures
        m.spec_matches(q, k).len() >= 1,
        m.spec_matches(q, k)[0].1 == 100,
        ({
            // The first match's similarity is exactly one: its dot product
            // squared equals the product of the squared norms.
            let sel = m.spec_selection(q, k);
            m.query_dots(q)[sel[0]] * m.query_dots(q)[sel[0]] == norm_sq(m.query_weights(q))
                * m.corpus_norms()[sel[0]]
        }),
{
    let v = m.vocab_len();
    let qd = m.query_weights(q);
    let ds = m.query_dots(q);
    let hs = m.corpus_norms();
    let toks = doc_tokens(q, m.ngram_len());
    lemma_rows_sound(m, q);

    // The query's vector is the corpus row of entry i0 itself.
    assert(m.corpus_docs()[i0] == toks);
    assert(m.rows@[i0].dense(v) == qd);
    assert(ds[i0] == norm_sq(qd));
    assert(hs[i0] == norm_sq(qd));

    // The entry has a token, the token is in the vocabulary, and its weight
    // is positive, so the squared norm is positive.
    let t0 = toks[0];
    assert(toks.contains(t0));
    lemma_spec_vocab(m.corpus_docs());
    assert(spec_vocab(m.corpus_docs()).contains(t0)) by {
        assert(m.corpus_docs()[i0].contains(t0));
    }
    let j0 = choose|j: int|
        0 <= j < tokens_view(m.vocab@).len() && tokens_view(m.vocab@)[j] == t0;
    lemma_count_pos(toks, t0);
    assert(qd[j0] >= IDF_SCALE) by {
        assert(qd[j0] == count_tok(toks, t0) * (m.idf@[j0] as int));
        assert(count_tok(toks, t0) * (m.idf@[j0] as int) >= 1 * (IDF_SCALE as int))
            by (nonlinear_arith)
            requires
                count_tok(toks, t0) >= 1,
                m.idf@[j0] >= IDF_SCALE,
        ;
    }
    let nqi = norm_sq(qd);
    assert(nqi > 0) by {
        lemma_term_le_dot(qd, qd, j0);
        assert(qd[j0] * qd[j0] > 0) by (nonlinear_arith)
            requires
                qd[j0] >= 1,
        ;
    }

    // The selection exists and its first entry is at least as similar as
    // entry i0, which has similarity exactly one.
    let kk = if k <= ds.len() as int {
        k
    } else {
        ds.len() as int
    };
    lemma_select_props(ds, hs, Set::empty(), kk as nat);
    let sel = m.spec_selection(q, k);
    assert(sel.len() == kk >= 1);
    let m0 = sel[0];
    assert(row_ge(ds[m0], hs[m0], ds[i0], hs[i0])) by {
        if sel.contains(i0) {
            let t0i = choose|t: int| 0 <= t < sel.len() && sel[t] == i0;
            assert(row_ge(ds[sel[0]], hs[sel[0]], ds[sel[t0i]], hs[sel[t0i]]));
        } else {
            assert(!Set::<int>::empty().contains(i0));
            assert(row_ge(ds[sel[0]], hs[sel[0]], ds[i0], hs[i0]));
        }
    }
    lemma_conf_monotone(nqi, ds[m0], hs[m0], ds[i0], hs[i0]);

    // Entry i0's similarity is exactly one: it rounds to one hundred.
    assert(conf_hits(nqi, nqi, nqi, 100)) by {
        assert((2 * 100 - 1) * (2 * 100 - 1) * nqi * nqi <= 40000 * (nqi * nqi))
            by (nonlinear_arith)
            requires
                nqi >= 0,
        ;
    }
    assert(conf_rec(nqi, nqi, nqi, 100) == 100);
    assert(conf_of(ds[i0], nqi, hs[i0]) == 100);
    lemma_conf_range(ds[m0], nqi, hs[m0]);
    assert(conf_of(ds[m0], nqi, hs[m0]) == 100);
    assert(m.spec_matches(q, k)[0] == (m0, conf_of(ds[m0], nqi, hs[m0])));

    // The first match's similarity is exactly one: at least one because it
    // ranks no worse than entry i0, and at most one by Cauchy-Schwarz.
    assert(0 <= m0 < m.rows@.len());
    let rd = m.rows@[m0].dense(v);
    assert(ds[m0] == dot_seq(qd, rd));
    assert(hs[m0] == norm_sq(rd));
    assert(ds[m0] > 0);
    assert(ds[m0] * ds[m0] >= nqi * hs[m0]) by {
        assert(ds[m0] * ds[m0] * hs[i0] >= ds[i0] * ds[i0] * hs[m0]);
        assert(ds[m0] * ds[m0] * nqi >= (nqi * hs[m0]) * nqi) by (nonlinear_arith)
            requires
                ds[m0] * ds[m0] * hs[i0] >= ds[i0] * ds[i0] * hs[m0],
                ds[i0] == nqi,
                hs[i0] == nqi,
        ;
        lemma_mul_inequality_converse(nqi * hs[m0], ds[m0] * ds[m0], nqi);
    }
    assert(ds[m0] * ds[m0] <= nqi * hs[m0]) by {
        lemma_sv_dense_nonneg(m.rows@[m0].cols@, m.rows@[m0].vals@, v);
        lemma_cauchy_schwarz(qd, rd);
    }
}

/// Where no other corpus row ties at similarity exactly one, the entry the
/// query equals is itself the first match.
pub proof fn lemma_self_match_unique(m: TFIDFMatcher, q: Seq<char>, i0: int, k: int)
    requires
        m.wf(),
        0 <= i0 < m.haystack@.len(),
        q == m.haystack@[i0]@,
        doc_tokens(q, m.ngram_len()).len() > 0,
        k >= 1,
        forall|j: int|
            0 <= j < m.haystack@.len() && j != i0 ==> #[trigger] m.query_dots(q)[j] * m.query_dots(
                q,
            )[j] != norm_sq(m.query_weights(q)) * m.corpus_norms()[j],
    ensures
        m.spec_matches(q, k)[0].0 == i0,
{
    lemma_self_match(m, q, i0, k);
    lemma_rows_sound(m, q);
    let ds = m.query_dots(q);
    let hs = m.corpus_norms();
    let kk = if k <= ds.len() as int {
        k
    } else {
        ds.len() as int
    };
    lemma_select_props(ds, hs, Set::empty(), kk as nat);
    let sel = m.spec_selection(q, k);
    assert(0 <= sel[0] < m.haystack@.len());
    assert(ds[sel[0]] * ds[sel[0]] == norm_sq(m.query_weights(q)) * hs[sel[0]]);
    assert(sel[0] == i0);
    assert(m.spec_matches(q, k)[0] == (sel[0], conf_of(
        ds[sel[0]],
        norm_sq(m.query_weights(q)),
        hs[sel[0]],
    )));
}

/// Lookup is a function of the fitted state, the query and `k`: any two
/// results meeting the lookup contract for the same inputs are equal in
/// every observable part.  This covers repeated `find` calls against one
/// matcher, and each entry of `find_many` against the `find` of its query.
pub proof fn lemma_find_deterministic(
    m: TFIDFMatcher,
    q: Seq<char>,
    k: int,
    nd1: Needle,
    nd2: Needle,
)
    requires
        m.needle_ok(q, k, nd1),
        m.needle_ok(q, k, nd2),
    ensures
        nd1.needle@ == nd2.needle@,
        nd1.matches@.len() == nd2.matches@.len(),
        forall|t: int|
            0 <= t < nd1.matches@.len() ==> {
                &&& (#[trigger] nd1.matches@[t]).haystack_idx == nd2.matches@[t].haystack_idx
                &&& nd1.matches@[t].confidence == nd2.matches@[t].confidence
                &&& nd1.matches@[t].haystack@ == nd2.matches@[t].haystack@
            },
{
    let p1 = nd1.matches@.map_values(|e: crate::matcher::MatchEntry| (e.haystack_idx as int, e.confidence as int));
    let p2 = nd2.matches@.map_values(|e: crate::matcher::MatchEntry| (e.haystack_idx as int, e.confidence as int));
    assert forall|t: int| 0 <= t < nd1.matches@.len() implies {
        &&& (#[trigger] nd1.matches@[t]).haystack_idx == nd2.matches@[t].haystack_idx
        &&& nd1.matches@[t].confidence == nd2.matches@[t].confidence
        &&& nd1.matches@[t].haystack@ == nd2.matches@[t].haystack@
    } by {
        assert(p1[t] == p2[t]);
        assert(p1[t].0 == nd1.matches@[t].haystack_idx as int);
        assert(p2[t].0 == nd2.matches@[t].haystack_idx as int);
        assert(p1[t].1 == nd1.matches@[t].confidence as int);
        assert(p2[t].1 == nd2.matches@[t].confidence as int);
    }
}

} // verus!
