//! The matcher facade: fitting a corpus and answering queries.
//!
//! `TFIDFMatcher::new` tokenizes every corpus entry, learns the vocabulary
//! and IDF weights, builds the corpus's sparse TF-IDF matrix and caches each
//! row's squared norm.  A fitted matcher is read only: queries compute a
//! query vector over the frozen vocabulary, score every corpus row by exact
//! cosine-similarity comparison, and return the top-k rows.  Rows of exactly
//! equal similarity come out in ascending corpus order.

use vstd::prelude::*;
use crate::fixed::IDF_LIMIT;
use crate::fixed::IDF_SCALE;
use crate::fixed::idf_fixed;
use crate::fixed::idf_weight;
use crate::rank::SCORE_MAX;
use crate::rank::conf_of;
use crate::rank::confidence;
use crate::rank::lemma_conf_monotone;
use crate::rank::row_ge;
use crate::rank::row_wf;
use crate::select::lemma_select_props;
use crate::select::map_score;
use crate::select::rows_wf;
use crate::select::select_top_k;
use crate::sparse::SparseVec;
use crate::sparse::WEIGHT_SUM_MAX;
use crate::sparse::dot_seq;
use crate::sparse::map_int;
use crate::sparse::norm_sq;
use crate::sparse::sum_seq;
use crate::sparse::sv_dot;
use crate::sparse::lemma_dot_le_sums;
use crate::sparse::lemma_dot_nonneg;
use crate::sparse::lemma_dot_pos_norm;
use crate::sparse::lemma_sum_nonneg;
use crate::sparse::lemma_sv_dense_nonneg;
use crate::sparse::lemma_sv_support;
use crate::select::spec_top_k;
use crate::tokenize::doc_tokens;
use crate::tokenize::joined_ngrams;
use crate::tokenize::lemma_doc_tokens_len;
use crate::tokenize::ngram_tokens;
use crate::tokenize::pad_text;
use crate::tokenize::padded_chars;
use crate::tokenize::tokens_view;
use crate::vocab::DOC_TOKENS_MAX;
use crate::vocab::build_vocab;
use crate::vocab::compute_df;
use crate::vocab::df_of;
use crate::vocab::docs_view;
use crate::vocab::spec_idf;
use crate::vocab::spec_vocab;
use crate::vocab::lemma_df_bounds;
use crate::vocab::lemma_spec_vocab;
use crate::vocab::transform;
use crate::vocab::weight_vec;
use crate::vocab::distinct_seq;
use vstd::arithmetic::mul::lemma_mul_upper_bound;

verus! {

/// Construction failure: the corpus yields no tokens at all.
#[derive(Debug, Clone, PartialEq, Eq)]
pub enum FitError {
    EmptyVocabulary,
}

/// Query failure: the query cannot be projected into the vector space
/// (its padded form exceeds the supported length).
#[derive(Debug, Clone, PartialEq, Eq)]
pub enum QueryError {
    TransformFailure,
}

/// A single match result from the corpus.
#[derive(Debug, Clone)]
pub struct MatchEntry {
    /// The matched string from the corpus.
    pub haystack: String,
    /// Similarity rounded half-up to two decimal places, in hundredths:
    /// 0 to 100.
    pub confidence: u32,
    /// Index of this match in the original corpus.
    pub haystack_idx: usize,
}

/// Container for query results, holding the original query and its matches.
#[derive(Debug, Clone)]
pub struct Needle {
    /// The original query string.
    pub needle: String,
    /// The top-k matches, ranked by descending similarity.
    pub matches: Vec<MatchEntry>,
}

/// A TF-IDF based string matcher for finding approximate matches in a
/// corpus.
#[derive(Debug)]
pub struct TFIDFMatcher {
    /// The corpus being matched against; indices are stable identifiers.
    pub haystack: Vec<String>,
    /// The learned vocabulary: one token per column.
    pub vocab: Vec<String>,
    /// The fixed-point IDF weight of each column.
    pub idf: Vec<u64>,
    /// The corpus's sparse TF-IDF matrix, one row per entry.
    pub rows: Vec<SparseVec>,
    /// The cached exact squared norm of each row.
    pub norm_sqs: Vec<u128>,
    /// The configured n-gram length.
    pub ngram_length: usize,
}

impl TFIDFMatcher {
    /// The tokenized corpus.
    pub open spec fn corpus_docs(self) -> Seq<Seq<Seq<char>>> {
        self.haystack@.map_values(|s: String| doc_tokens(s@, self.ngram_length as int))
    }

    /// The corpus strings, as character sequences.
    pub open spec fn corpus(self) -> Seq<Seq<char>> {
        self.haystack@.map_values(|s: String| s@)
    }

    /// The number of vocabulary columns.
    pub open spec fn vocab_len(self) -> int {
        self.vocab@.len() as int
    }

    /// The configured n-gram length.
    pub open spec fn ngram_len(self) -> int {
        self.ngram_length as int
    }

    /// The fitted state: the vocabulary and IDF weights are those learned
    /// from the tokenized corpus, every matrix row is the corpus entry's
    /// TF-IDF vector with its weight sum bounded, and the cached norms are
    /// the rows' exact squared norms.
    pub open spec fn wf(self) -> bool {
        &&& self.ngram_length >= 1
        &&& self.vocab@.len() >= 1
        &&& self.idf@.len() == self.vocab@.len()
        &&& tokens_view(self.vocab@) == spec_vocab(self.corpus_docs())
        &&& map_int(self.idf@) == spec_idf(self.corpus_docs())
        &&& forall|j: int|
            0 <= j < self.idf@.len() ==> IDF_SCALE <= #[trigger] self.idf@[j] < IDF_LIMIT
        &&& self.rows@.len() == self.haystack@.len()
        &&& self.norm_sqs@.len() == self.haystack@.len()
        &&& forall|i: int|
            0 <= i < self.rows@.len() ==> {
                &&& (#[trigger] self.rows@[i]).wf(self.vocab_len())
                &&& self.rows@[i].dense(self.vocab_len()) == weight_vec(
                    tokens_view(self.vocab@),
                    map_int(self.idf@),
                    self.corpus_docs()[i],
                )
                &&& sum_seq(self.rows@[i].dense(self.vocab_len())) <= WEIGHT_SUM_MAX
                &&& self.norm_sqs@[i] as int == norm_sq(self.rows@[i].dense(self.vocab_len()))
            }
    }

    /// The query's TF-IDF vector over the frozen vocabulary.
    pub open spec fn query_weights(self, q: Seq<char>) -> Seq<int> {
        weight_vec(tokens_view(self.vocab@), map_int(self.idf@), doc_tokens(q, self.ngram_len()))
    }

    /// The dot products of the query vector with every corpus row.
    pub open spec fn query_dots(self, q: Seq<char>) -> Seq<int> {
        Seq::new(
            self.rows@.len(),
            |i: int| dot_seq(self.query_weights(q), self.rows@[i].dense(self.vocab_len())),
        )
    }

    /// The cached squared norms of the corpus rows.
    pub open spec fn corpus_norms(self) -> Seq<int> {
        Seq::new(self.rows@.len(), |i: int| norm_sq(self.rows@[i].dense(self.vocab_len())))
    }

    /// The selected corpus indices for a query: the `min(k, corpus size)`
    /// most similar rows, descending, ties by ascending index.
    pub open spec fn spec_selection(self, q: Seq<char>, k: int) -> Seq<int> {
        spec_top_k(self.query_dots(q), self.corpus_norms(), k)
    }

    /// The matches for a query, as (corpus index, confidence) pairs.
    pub open spec fn spec_matches(self, q: Seq<char>, k: int) -> Seq<(int, int)> {
        self.spec_selection(q, k).map_values(
            |m: int|
                (
                    m,
                    conf_of(
                        self.query_dots(q)[m],
                        norm_sq(self.query_weights(q)),
                        self.corpus_norms()[m],
                    ),
                ),
        )
    }

    /// Whether a returned `Needle` is the specified result for a query.
    pub open spec fn needle_ok(self, q: Seq<char>, k: int, nd: Needle) -> bool {
        &&& nd.needle@ == q
        &&& nd.matches@.len() == (if k <= self.haystack@.len() as int {
            k
        } else {
            self.haystack@.len() as int
        })
        &&& nd.matches@.map_values(
            |e: MatchEntry| (e.haystack_idx as int, e.confidence as int),
        ) == self.spec_matches(q, k)
        &&& forall|t: int|
            0 <= t < nd.matches@.len() ==> {
                &&& (#[trigger] nd.matches@[t]).haystack_idx < self.haystack@.len()
                &&& nd.matches@[t].haystack@ == self.haystack@[nd.matches@[t].haystack_idx as int]@
                &&& nd.matches@[t].confidence <= 100
            }
        &&& forall|t1: int, t2: int|
            0 <= t1 <= t2 < nd.matches@.len() ==> (#[trigger] nd.matches@[t1]).confidence >= (
            #[trigger] nd.matches@[t2]).confidence
    }

    /// The space-joined n-gram token stream of a text: lowercased words
    /// wrapped in `_` boundary markers, every in-word window of `n`
    /// characters.
    pub fn text_into_ngrams(text: &str, n: usize) -> (r: String)
        requires
            n >= 1,
        ensures
            r@ == crate::tokenize::join_tokens(doc_tokens(text@, n as int)),
    {
        joined_ngrams(text, n)
    }

    /// Creates a new TF-IDF matcher from a corpus of strings.
    ///
    /// Fails with `EmptyVocabulary` exactly when the corpus produces no
    /// tokens at all: it is empty, or every entry's padded form is shorter
    /// than `ngram_length`.
    #[verifier::loop_isolation(false)]
    pub fn new(haystack: Vec<String>, ngram_length: usize) -> (r: Result<TFIDFMatcher, FitError>)
        requires
            ngram_length >= 1,
            forall|i: int|
                0 <= i < haystack@.len() ==> padded_chars(haystack@[i]@).len() <= DOC_TOKENS_MAX,
        ensures
            ({
                let docs = haystack@.map_values(
                    |s: String| doc_tokens(s@, ngram_length as int),
                );
                match r {
                    Ok(m) => {
                        &&& m.wf()
                        &&& m.haystack@ == haystack@
                        &&& m.ngram_length == ngram_length
                        &&& spec_vocab(docs).len() >= 1
                    },
                    Err(e) => e == FitError::EmptyVocabulary && spec_vocab(docs).len() == 0,
                }
            }),
    {
        let ghost docs_spec = haystack@.map_values(|s: String| doc_tokens(s@, ngram_length as int));
        let n_entries = haystack.len();
        let mut docs: Vec<Vec<String>> = Vec::new();
        let mut i: usize = 0;
        while i < n_entries
            invariant
                i <= n_entries,
                docs@.len() == i,
                forall|ii: int|
                    0 <= ii < i ==> tokens_view(#[trigger] docs@[ii]@) == docs_spec[ii]
                        && docs@[ii]@.len() <= DOC_TOKENS_MAX,
            decreases n_entries - i,
        {
            let toks = ngram_tokens(haystack[i].as_str(), ngram_length);
            proof {
                lemma_doc_tokens_len(haystack@[i as int]@, ngram_length as int);
            }
            docs.push(toks);
            i = i + 1;
        }
        proof {
            assert(docs_view(docs@) =~= docs_spec);
        }
        let vocab = build_vocab(&docs);
        if vocab.len() == 0 {
            proof {
                assert(spec_vocab(docs_spec).len() == 0);
            }
            return Err(FitError::EmptyVocabulary);
        }
        let df = compute_df(&docs, &vocab);
        proof {
            lemma_spec_vocab(docs_spec);
            assert forall|j: int| 0 <= j < vocab@.len() implies 1 <= #[trigger] df@[j]
                && df@[j] <= n_entries by {
                assert(spec_vocab(docs_spec).contains(tokens_view(vocab@)[j])) by {
                    assert(tokens_view(vocab@)[j] == spec_vocab(docs_spec)[j]);
                }
                lemma_df_bounds(docs_spec, tokens_view(vocab@)[j]);
            }
        }
        let n64: u64 = n_entries as u64;
        let mut idf: Vec<u64> = Vec::new();
        let mut j: usize = 0;
        while j < df.len()
            invariant
                j <= df@.len(),
                idf@.len() == j,
                df@.len() == vocab@.len(),
                n64 == n_entries,
                forall|jj: int| 0 <= jj < df@.len() ==> 1 <= #[trigger] df@[jj] <= n_entries,
                forall|jj: int|
                    0 <= jj < j ==> #[trigger] idf@[jj] as int == idf_fixed(
                        n_entries as int,
                        df@[jj] as int,
                    ) && IDF_SCALE <= idf@[jj] < IDF_LIMIT,
            decreases df@.len() - j,
        {
            let w = idf_weight(n64, df[j]);
            idf.push(w);
            j = j + 1;
        }
        proof {
            assert(map_int(idf@) =~= spec_idf(docs_spec)) by {
                assert forall|jj: int| 0 <= jj < idf@.len() implies map_int(idf@)[jj] == spec_idf(
                    docs_spec,
                )[jj] by {
                    assert(spec_vocab(docs_spec)[jj] == tokens_view(vocab@)[jj]);
                    assert(df@[jj] as int == df_of(docs_spec, tokens_view(vocab@)[jj]));
                }
            }
        }
        let v = vocab.len();
        let mut rows: Vec<SparseVec> = Vec::new();
        let mut norm_sqs: Vec<u128> = Vec::new();
        let mut i2: usize = 0;
        while i2 < docs.len()
            invariant
                i2 <= docs@.len(),
                rows@.len() == i2,
                norm_sqs@.len() == i2,
                v == vocab@.len(),
                idf@.len() == vocab@.len(),
                docs@.len() == haystack@.len(),
                forall|jj: int|
                    0 <= jj < idf@.len() ==> IDF_SCALE <= #[trigger] idf@[jj] < IDF_LIMIT,
                forall|ii: int|
                    0 <= ii < i2 ==> {
                        &&& (#[trigger] rows@[ii]).wf(v as int)
                        &&& rows@[ii].dense(v as int) == weight_vec(
                            tokens_view(vocab@),
                            map_int(idf@),
                            docs_spec[ii],
                        )
                        &&& sum_seq(rows@[ii].dense(v as int)) <= WEIGHT_SUM_MAX
                        &&& norm_sqs@[ii] as int == norm_sq(rows@[ii].dense(v as int))
                    },
            decreases docs@.len() - i2,
        {
            proof {
                lemma_spec_vocab(docs_spec);
                assert(tokens_view(docs@[i2 as int]@) == docs_spec[i2 as int]);
            }
            let row = transform(&vocab, &idf, &docs[i2]);
            proof {
                assert((IDF_LIMIT as int) * (docs@[i2 as int]@.len() as int) <= (IDF_LIMIT as int)
                    * (DOC_TOKENS_MAX as int)) by (nonlinear_arith)
                    requires
                        docs@[i2 as int]@.len() <= DOC_TOKENS_MAX,
                ;
            }
            let nsq = sv_dot(&row, &row, Ghost(v as int));
            rows.push(row);
            norm_sqs.push(nsq);
            i2 = i2 + 1;
        }
        let m = TFIDFMatcher { haystack, vocab, idf, rows, norm_sqs, ngram_length };
        proof {
            assert(m.corpus_docs() =~= docs_spec);
            assert(tokens_view(m.vocab@) == spec_vocab(m.corpus_docs()));
            assert(map_int(m.idf@) == spec_idf(m.corpus_docs()));
        }
        Ok(m)
    }
}

/// Tokenizes a query, refusing one whose padded form exceeds the supported
/// length.
fn checked_tokens(text: &str, n: usize) -> (r: Option<Vec<String>>)
    requires
        n >= 1,
    ensures
        match r {
            Some(ts) => tokens_view(ts@) == doc_tokens(text@, n as int) && ts@.len()
                <= DOC_TOKENS_MAX && padded_chars(text@).len() <= DOC_TOKENS_MAX,
            None => padded_chars(text@).len() > DOC_TOKENS_MAX,
        },
{
    let p = pad_text(text);
    if p.len() > DOC_TOKENS_MAX {
        return None;
    }
    proof {
        lemma_doc_tokens_len(text@, n as int);
    }
    Some(ngram_tokens(text, n))
}

impl TFIDFMatcher {
    /// Finds the top-k matches for a single needle string.
    ///
    /// Returns a [`Needle`] with exactly `min(top_k, corpus size)` matches
    /// in descending similarity order, or `TransformFailure` when the
    /// query's padded form exceeds the supported length.
    #[verifier::loop_isolation(false)]
    pub fn find(&self, needle: &str, top_k: usize) -> (r: Result<Needle, QueryError>)
        requires
            self.wf(),
        ensures
            match r {
                Ok(nd) => self.needle_ok(needle@, top_k as int, nd) && padded_chars(
                    needle@,
                ).len() <= DOC_TOKENS_MAX,
                Err(e) => e == QueryError::TransformFailure && padded_chars(needle@).len()
                    > DOC_TOKENS_MAX,
            },
    {
        let ghost q = needle@;
        let toks = match checked_tokens(needle, self.ngram_length) {
            None => {
                return Err(QueryError::TransformFailure);
            },
            Some(t) => t,
        };
        let v = self.vocab.len();
        proof {
            lemma_spec_vocab(self.corpus_docs());
            assert(distinct_seq(tokens_view(self.vocab@)));
        }
        let qv = transform(&self.vocab, &self.idf, &toks);
        let ghost qd = self.query_weights(q);
        proof {
            assert(qv.dense(v as int) == qd);
            assert((IDF_LIMIT as int) * (toks@.len() as int) <= WEIGHT_SUM_MAX)
                by (nonlinear_arith)
                requires
                    toks@.len() <= DOC_TOKENS_MAX,
                    DOC_TOKENS_MAX == 131072,
                    IDF_LIMIT == 65536,
                    WEIGHT_SUM_MAX == 0x2_0000_0000,
            ;
        }
        let nq = sv_dot(&qv, &qv, Ghost(v as int));
        let n = self.rows.len();
        let ghost dspec = self.query_dots(q);
        let mut dots: Vec<u128> = Vec::new();
        let mut i: usize = 0;
        while i < n
            invariant
                i <= n,
                dots@.len() == i,
                forall|ii: int|
                    0 <= ii < i ==> #[trigger] dots@[ii] as int == dspec[ii] && dots@[ii]
                        <= SCORE_MAX,
            decreases n - i,
        {
            let d = sv_dot(&qv, &self.rows[i], Ghost(v as int));
            proof {
                assert(WEIGHT_SUM_MAX * WEIGHT_SUM_MAX == SCORE_MAX);
            }
            dots.push(d);
            i = i + 1;
        }
        let ghost hspec = self.corpus_norms();
        proof {
            assert(map_score(dots@) =~= dspec);
            assert forall|ii: int| 0 <= ii < n implies #[trigger] self.norm_sqs@[ii] as int
                == hspec[ii] && self.norm_sqs@[ii] <= SCORE_MAX by {
                let rd = self.rows@[ii].dense(v as int);
                lemma_sv_dense_nonneg(self.rows@[ii].cols@, self.rows@[ii].vals@, v as int);
                lemma_dot_le_sums(rd, rd);
                lemma_sum_nonneg(rd);
                lemma_mul_upper_bound(
                    sum_seq(rd),
                    WEIGHT_SUM_MAX as int,
                    sum_seq(rd),
                    WEIGHT_SUM_MAX as int,
                );
            }
            assert(map_score(self.norm_sqs@) =~= hspec);
            assert forall|ii: int| 0 <= ii < n implies row_wf(dspec[ii], hspec[ii]) by {
                let rd = self.rows@[ii].dense(v as int);
                lemma_sv_dense_nonneg(self.rows@[ii].cols@, self.rows@[ii].vals@, v as int);
                lemma_sv_dense_nonneg(qv.cols@, qv.vals@, v as int);
                lemma_dot_nonneg(qd, rd);
                lemma_dot_nonneg(rd, rd);
                if dspec[ii] > 0 {
                    lemma_dot_pos_norm(qd, rd);
                }
            }
            assert(rows_wf(dspec, hspec));
        }
        let sel = select_top_k(&dots, &self.norm_sqs, top_k);
        let ghost kk = if top_k as int <= n as int {
            top_k as int
        } else {
            n as int
        };
        proof {
            lemma_select_props(dspec, hspec, Set::empty(), kk as nat);
            assert(sel@.map_values(|u: usize| u as int) == self.spec_selection(q, top_k as int));
            assert(sel@.len() == kk);
        }
        let ghost selspec = self.spec_selection(q, top_k as int);
        let ghost mspec = self.spec_matches(q, top_k as int);
        let ghost nqi = norm_sq(qd);
        proof {
            assert(nq as int == nqi);
        }
        let mut matches: Vec<MatchEntry> = Vec::new();
        let mut t: usize = 0;
        while t < sel.len()
            invariant
                t <= sel@.len(),
                matches@.len() == t,
                matches@.map_values(|e: MatchEntry| (e.haystack_idx as int, e.confidence as int))
                    =~= mspec.take(t as int),
                forall|tt: int|
                    0 <= tt < t ==> {
                        &&& (#[trigger] matches@[tt]).haystack_idx < n
                        &&& matches@[tt].haystack@ == self.haystack@[matches@[
                            tt
                        ].haystack_idx as int]@
                        &&& matches@[tt].confidence <= 100
                    },
            decreases sel@.len() - t,
        {
            let m_idx = sel[t];
            proof {
                assert(sel@.map_values(|u: usize| u as int)[t as int] == selspec[t as int]);
                assert(m_idx as int == selspec[t as int]);
                assert(0 <= selspec[t as int] < n);
                assert(dots@[m_idx as int] as int == dspec[m_idx as int]);
            }
            let c = confidence(dots[m_idx], nq, self.norm_sqs[m_idx]);
            let entry = MatchEntry {
                haystack: self.haystack[m_idx].clone(),
                confidence: c,
                haystack_idx: m_idx,
            };
            matches.push(entry);
            proof {
                assert(mspec[t as int] == (selspec[t as int], conf_of(
                    dspec[selspec[t as int]],
                    nqi,
                    hspec[selspec[t as int]],
                )));
                assert(mspec.take(t as int + 1) =~= mspec.take(t as int).push(mspec[t as int]));
            }
            t = t + 1;
        }
        proof {
            assert(mspec.take(sel@.len() as int) =~= mspec);
            // Confidences are non-increasing: the selection is sorted by
            // similarity and rounding is monotone in it.
            assert forall|t1: int, t2: int|
                0 <= t1 <= t2 < matches@.len() implies (#[trigger] matches@[t1]).confidence >= (
            #[trigger] matches@[t2]).confidence by {
                let m1 = selspec[t1];
                let m2 = selspec[t2];
                assert(row_ge(dspec[m1], hspec[m1], dspec[m2], hspec[m2]));
                lemma_conf_monotone(nqi, dspec[m1], hspec[m1], dspec[m2], hspec[m2]);
                assert(matches@.map_values(
                    |e: MatchEntry| (e.haystack_idx as int, e.confidence as int),
                )[t1] == mspec[t1]);
                assert(matches@.map_values(
                    |e: MatchEntry| (e.haystack_idx as int, e.confidence as int),
                )[t2] == mspec[t2]);
            }
        }
        let nd = Needle { needle: needle.to_owned(), matches };
        Ok(nd)
    }

    /// Finds the top-k matches for every needle in a batch.
    ///
    /// The results are exactly those of calling [`find`](Self::find) once
    /// per needle, in order; the whole batch fails when any needle fails.
    #[verifier::loop_isolation(false)]
    pub fn find_many(&self, needles: Vec<String>, top_k: usize) -> (r: Result<
        Vec<Needle>,
        QueryError,
    >)
        requires
            self.wf(),
        ensures
            match r {
                Ok(v) => v@.len() == needles@.len() && forall|i: int|
                    0 <= i < v@.len() ==> self.needle_ok(
                        needles@[i]@,
                        top_k as int,
                        #[trigger] v@[i],
                    ),
                Err(e) => e == QueryError::TransformFailure && exists|i: int|
                    0 <= i < needles@.len() && padded_chars(#[trigger] needles@[i]@).len()
                        > DOC_TOKENS_MAX,
            },
    {
        let mut out: Vec<Needle> = Vec::new();
        let mut i: usize = 0;
        while i < needles.len()
            invariant
                i <= needles@.len(),
                out@.len() == i,
                forall|ii: int|
                    0 <= ii < i ==> self.needle_ok(needles@[ii]@, top_k as int, #[trigger] out@[
                        ii
                    ]),
            decreases needles@.len() - i,
        {
            match self.find(needles[i].as_str(), top_k) {
                Ok(nd) => {
                    out.push(nd);
                },
                Err(e) => {
                    return Err(e);
                },
            }
            i = i + 1;
        }
        Ok(out)
    }

    /// The vocabulary columns a query activates, in ascending order:
    /// diagnostic output, empty when no query n-gram is in the vocabulary.
    pub fn features(&self, needle: &str) -> (r: Vec<usize>)
        requires
            self.wf(),
            padded_chars(needle@).len() <= DOC_TOKENS_MAX,
        ensures
            forall|t1: int, t2: int| 0 <= t1 < t2 < r@.len() ==> r@[t1] < r@[t2],
            forall|t: int| 0 <= t < r@.len() ==> (#[trigger] r@[t]) < self.vocab@.len(),
            forall|j: int|
                0 <= j < self.vocab_len() ==> (self.query_weights(needle@)[j] != 0 <==> r@.contains(
                    j as usize,
                )),
    {
        let toks = match checked_tokens(needle, self.ngram_length) {
            None => {
                proof {
                    assert(false);
                }
                unreached()
            },
            Some(t) => t,
        };
        let v = self.vocab.len();
        proof {
            lemma_spec_vocab(self.corpus_docs());
        }
        let qv = transform(&self.vocab, &self.idf, &toks);
        proof {
            assert forall|j: int|
                0 <= j < self.vocab_len() implies (self.query_weights(needle@)[j] != 0
                <==> qv.cols@.contains(j as usize)) by {
                lemma_sv_support(qv.cols@, qv.vals@, v as int, j);
            }
        }
        qv.cols
    }
}

} // verus!
