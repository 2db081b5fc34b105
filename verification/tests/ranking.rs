use vector_store::score::Score;
use vector_store::store::VectorStore;

fn corpus() -> Vec<String> {
    vec![
        "I like apples".to_string(),
        "I like pears".to_string(),
        "I like dogs".to_string(),
        "I like cats".to_string(),
    ]
}

fn cosine(s: &Score) -> f64 {
    (s.num as f64 / s.den as f64).sqrt()
}

#[test]
fn exact_match_scores_one() {
    let store = VectorStore::new(corpus());
    let results = store.top_n("I like apples", 1);
    assert_eq!(results.len(), 1);
    assert_eq!(results[0].text, "I like apples");
    assert_eq!(results[0].score.num, results[0].score.den);
    assert_eq!(cosine(&results[0].score), 1.0);
}

#[test]
fn fruit_query_returns_two_pinned_scores() {
    // "fruit" -> f:1 r:1 u:1 i:1 t:1, norm^2 = 5
    // against "I like cats" (norm^2 = 11): dot = i:2 + t:1 = 3 -> 9/55
    // against "I like pears" (norm^2 = 14): dot = r:1 + i:2 = 3 -> 9/70
    // against "I like dogs" (norm^2 = 11): dot = i:2 = 2 -> 4/55
    // against "I like apples" (norm^2 = 19): dot = i:2 = 2 -> 4/95
    let store = VectorStore::new(corpus());
    let results = store.top_n("fruit", 2);
    assert_eq!(results.len(), 2);
    assert_eq!(results[0].text, "I like cats");
    assert_eq!(results[0].score, Score { num: 9, den: 55 });
    assert_eq!(results[1].text, "I like pears");
    assert_eq!(results[1].score, Score { num: 9, den: 70 });
    // near-zero but non-negative overlap
    assert!(cosine(&results[0].score) > 0.0);
    assert!(cosine(&results[0].score) < 0.5);
}

#[test]
fn results_are_sorted_by_descending_score() {
    let store = VectorStore::new(corpus());
    let results = store.top_n("fruit", 4);
    assert_eq!(results.len(), 4);
    let expected = ["I like cats", "I like pears", "I like dogs", "I like apples"];
    for (r, e) in results.iter().zip(expected.iter()) {
        assert_eq!(r.text, *e);
    }
    for pair in results.windows(2) {
        assert!(cosine(&pair[0].score) >= cosine(&pair[1].score));
    }
}

#[test]
fn n_larger_than_corpus_returns_all() {
    let store = VectorStore::new(corpus());
    let results = store.top_n("I like apples", 10);
    assert_eq!(results.len(), 4);
}

#[test]
fn n_zero_returns_nothing() {
    let store = VectorStore::new(corpus());
    let results = store.top_n("I like apples", 0);
    assert_eq!(results.len(), 0);
}

#[test]
fn query_without_letters_scores_zero_everywhere() {
    let store = VectorStore::new(corpus());
    let results = store.top_n("123", 2);
    assert_eq!(results.len(), 2);
    for r in &results {
        assert_eq!(r.score, Score { num: 0, den: 1 });
    }
    // all scores tie, so results come in index order
    assert_eq!(results[0].text, "I like apples");
    assert_eq!(results[1].text, "I like pears");
}

#[test]
fn duplicate_documents_collapse_to_one_entry() {
    let docs = vec!["a".to_string(), "b".to_string(), "a".to_string()];
    let store = VectorStore::new(docs);
    assert_eq!(store.distinct_count(), 2);
    let results = store.top_n("a", 5);
    assert_eq!(results.len(), 2);
    assert_eq!(results[0].text, "a");
    assert_eq!(results[1].text, "b");
    for p1 in 0..results.len() {
        for p2 in (p1 + 1)..results.len() {
            assert_ne!(results[p1].text, results[p2].text);
        }
    }
}

#[test]
fn equal_scores_keep_first_occurrence_order() {
    // "ab" and "ba" have identical vectors, so they tie on every query
    let docs = vec!["ab".to_string(), "ba".to_string(), "xy".to_string()];
    let store = VectorStore::new(docs);
    let results = store.top_n("a", 3);
    assert_eq!(results.len(), 3);
    assert_eq!(results[0].text, "ab");
    assert_eq!(results[1].text, "ba");
    assert_eq!(results[0].score, results[1].score);
    assert_eq!(results[2].text, "xy");
    // disjoint letters: zero dot product, but no zero vector is involved,
    // so the exact fraction keeps its denominator
    assert_eq!(results[2].score, Score { num: 0, den: 2 });
}

#[test]
fn empty_document_scores_zero() {
    let docs = vec!["".to_string(), "a".to_string()];
    let store = VectorStore::new(docs);
    let results = store.top_n("a", 2);
    assert_eq!(results.len(), 2);
    assert_eq!(results[0].text, "a");
    assert_eq!(results[0].score, Score { num: 1, den: 1 });
    assert_eq!(results[1].text, "");
    assert_eq!(results[1].score, Score { num: 0, den: 1 });
}

#[test]
fn corpus_is_retained_in_order() {
    let store = VectorStore::new(corpus());
    assert_eq!(store.documents, corpus());
}
