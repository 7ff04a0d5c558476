use tfidf_matcher::idf_weight;
use tfidf_matcher::padded_len;
use tfidf_matcher::FitError;
use tfidf_matcher::QueryError;
use tfidf_matcher::TFIDFMatcher;

fn corpus(entries: &[&str]) -> Vec<String> {
    entries.iter().map(|s| s.to_string()).collect()
}

#[test]
fn tokenize_empty_and_too_short() {
    // The empty text pads to "__", one bigram window.
    assert_eq!(TFIDFMatcher::text_into_ngrams("", 2), "__");
    // With n = 3 the padded form is shorter than a window: no tokens.
    assert_eq!(TFIDFMatcher::text_into_ngrams("", 3), "");
}

#[test]
fn tokenize_unicode_and_whitespace() {
    // Unicode lowercase folding, not just ASCII.
    assert_eq!(TFIDFMatcher::text_into_ngrams("ÄB", 2), "_ä äb b_");
    // Tabs and newlines are word boundaries like spaces, and runs collapse.
    assert_eq!(TFIDFMatcher::text_into_ngrams("a\t\nb", 2), "_a a_ _b b_");
}

#[test]
fn padded_len_counts_markers() {
    // "abc de" pads to "_abc_de_".
    assert_eq!(padded_len("abc de"), 8);
    assert_eq!(padded_len(""), 2);
}

#[test]
fn idf_weight_exact_values() {
    // One document, token in it: ln(2/2) + 1 = 1, exactly one scale unit.
    assert_eq!(idf_weight(1, 1), 1024);
    // Three documents, token in one: ln(4/2) + 1 = 1.6931..., so 1734.
    assert_eq!(idf_weight(3, 1), 1734);
    // Rarer tokens weigh no less than common ones.
    assert!(idf_weight(9, 1) > idf_weight(9, 9));
}

#[test]
fn self_similarity_ranks_first_with_full_confidence() {
    let matcher = TFIDFMatcher::new(corpus(&["alpha", "beta", "gamma", "delta"]), 2).unwrap();
    for (i, q) in ["alpha", "beta", "gamma", "delta"].iter().enumerate() {
        let r = matcher.find(q, 1).expect("find failed");
        assert_eq!(r.matches[0].haystack_idx, i);
        assert_eq!(r.matches[0].confidence, 100);
    }
}

#[test]
fn three_entry_corpus_ranks_prefix_query() {
    let matcher = TFIDFMatcher::new(corpus(&["test", "testing", "example"]), 3).unwrap();
    let r = matcher.find("test", 2).expect("find failed");
    assert_eq!(r.matches[0].haystack, "test");
    assert_eq!(r.matches[0].haystack_idx, 0);
    assert!(r.matches[0].confidence >= 99);
    assert_eq!(r.matches[1].haystack, "testing");
    assert!(r.matches[1].confidence > 0 && r.matches[1].confidence < 100);
}

#[test]
fn transposition_keeps_shared_ngrams_exact() {
    // "adf" vs "atf" share exactly "_a" and "f_" of four query bigrams:
    // similarity 1/sqrt(2) = 0.7071..., which rounds to 71 hundredths.
    let matcher = TFIDFMatcher::new(corpus(&["adf"]), 2).unwrap();
    let r = matcher.find("atf", 2).expect("find failed");
    assert_eq!(r.matches.len(), 1);
    assert_eq!(r.matches[0].confidence, 71);
}

#[test]
fn find_and_find_many_agree() {
    let matcher =
        TFIDFMatcher::new(corpus(&["grape", "grapefruit", "pineapple", "apple"]), 2).unwrap();
    let queries = ["aple", "grap", "pine", "zzz"];
    let batch = matcher
        .find_many(corpus(&queries), 3)
        .expect("find_many failed");
    assert_eq!(batch.len(), queries.len());
    for (i, q) in queries.iter().enumerate() {
        let single = matcher.find(q, 3).expect("find failed");
        assert_eq!(batch[i].needle, single.needle);
        assert_eq!(batch[i].matches.len(), single.matches.len());
        for (a, b) in batch[i].matches.iter().zip(single.matches.iter()) {
            assert_eq!(a.haystack_idx, b.haystack_idx);
            assert_eq!(a.haystack, b.haystack);
            assert_eq!(a.confidence, b.confidence);
        }
    }
}

#[test]
fn top_k_zero_and_oversized() {
    let matcher = TFIDFMatcher::new(corpus(&["one", "two", "three"]), 2).unwrap();
    let empty = matcher.find("one", 0).expect("find failed");
    assert!(empty.matches.is_empty());
    let all = matcher.find("one", 10).expect("find failed");
    assert_eq!(all.matches.len(), 3);
    let exact = matcher.find("one", 3).expect("find failed");
    assert_eq!(exact.matches.len(), 3);
}

#[test]
fn confidences_are_non_increasing() {
    let matcher = TFIDFMatcher::new(
        corpus(&["match", "matches", "matching", "mismatch", "other"]),
        3,
    )
    .unwrap();
    let r = matcher.find("match", 5).expect("find failed");
    assert_eq!(r.matches.len(), 5);
    for w in r.matches.windows(2) {
        assert!(w[0].confidence >= w[1].confidence);
    }
}

#[test]
fn repeated_find_is_idempotent() {
    let matcher = TFIDFMatcher::new(corpus(&["kitten", "sitting", "mitten"]), 2).unwrap();
    let a = matcher.find("mittens", 3).expect("find failed");
    let b = matcher.find("mittens", 3).expect("find failed");
    assert_eq!(a.needle, b.needle);
    assert_eq!(a.matches.len(), b.matches.len());
    for (x, y) in a.matches.iter().zip(b.matches.iter()) {
        assert_eq!(x.haystack_idx, y.haystack_idx);
        assert_eq!(x.haystack, y.haystack);
        assert_eq!(x.confidence, y.confidence);
    }
}

#[test]
fn empty_vocabulary_fails_construction() {
    // An empty corpus has no tokens.
    assert_eq!(
        TFIDFMatcher::new(Vec::new(), 2).unwrap_err(),
        FitError::EmptyVocabulary
    );
    // Every entry shorter than the n-gram length after padding: "a" pads to
    // "_a_", three characters, so no window of five exists.
    assert_eq!(
        TFIDFMatcher::new(corpus(&["a", "b"]), 5).unwrap_err(),
        FitError::EmptyVocabulary
    );
}

#[test]
fn oversized_query_is_a_recoverable_error() {
    let matcher = TFIDFMatcher::new(corpus(&["short"]), 2).unwrap();
    let long = "x".repeat(200_000);
    assert_eq!(
        matcher.find(&long, 1).unwrap_err(),
        QueryError::TransformFailure
    );
    assert_eq!(
        matcher
            .find_many(vec!["short".to_string(), long], 1)
            .unwrap_err(),
        QueryError::TransformFailure
    );
}

#[test]
fn unknown_query_tokens_degrade_gracefully() {
    let matcher = TFIDFMatcher::new(corpus(&["abc"]), 2).unwrap();
    // No bigram of "xyz" is in the vocabulary: zero matches is not an error,
    // the one corpus row simply scores zero.
    let r = matcher.find("xyz", 1).expect("find failed");
    assert_eq!(r.matches.len(), 1);
    assert_eq!(r.matches[0].confidence, 0);
    assert!(matcher.features("xyz").is_empty());
}

#[test]
fn features_are_sorted_and_distinct() {
    let matcher = TFIDFMatcher::new(corpus(&["banana", "bandana"]), 2).unwrap();
    let f = matcher.features("banana");
    assert!(!f.is_empty());
    for w in f.windows(2) {
        assert!(w[0] < w[1]);
    }
}
