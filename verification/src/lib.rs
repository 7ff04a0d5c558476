//! Approximate (fuzzy) string matching against a fixed corpus.
//!
//! Corpus entries and queries are broken into character n-grams, weighted by
//! term frequency times smoothed inverse document frequency, and compared by
//! cosine similarity.  All arithmetic is exact integer arithmetic: IDF
//! weights are fixed-point values, similarities are ranked by comparing the
//! exact rationals `dot^2 / (|q|^2 * |h|^2)` via wide multiplication, and
//! confidences are integer hundredths, so no result ever depends on
//! floating-point rounding.

pub mod chars;
pub mod fixed;
pub mod laws;
pub mod matcher;
pub mod rank;
pub mod select;
pub mod sparse;
pub mod tokenize;
pub mod vocab;
pub mod wideint;

pub use fixed::idf_weight;
pub use laws::lemma_find_deterministic;
pub use laws::lemma_self_match;
pub use laws::lemma_self_match_unique;
pub use matcher::FitError;
pub use matcher::MatchEntry;
pub use matcher::Needle;
pub use matcher::QueryError;
pub use matcher::TFIDFMatcher;
pub use sparse::SparseVec;
pub use tokenize::padded_len;
pub use vocab::DOC_TOKENS_MAX;
