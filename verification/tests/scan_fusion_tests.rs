//! Substring and fuzzy scan queries, and reciprocal rank fusion.
//! Scan scores are exact parts-per-million integers: 1 000 000 is a
//! score of 1.0.

use hybrid_search::engine::{Document, SearchEngine};
use hybrid_search::vector_index::VectorIndex;
use hybrid_search::fusion::rrf_fuse;

#[test]
fn substring_search_prefers_early_matches() {
    let mut engine = SearchEngine::new();
    engine
        .add_document(Document::new("early").attribute("content", "rust is wonderful"))
        .unwrap();
    engine
        .add_document(Document::new("late").attribute("content", "wonderful and dependable rust"))
        .unwrap();
    engine
        .add_document(Document::new("none").attribute("content", "completely unrelated"))
        .unwrap();
    let r = engine.search_substring("rust", 10);
    assert_eq!(r.len(), 2);
    assert_eq!(r[0].document_id, "early");
    // a match at position 0 scores 1 + 1/1
    assert_eq!(r[0].score, 2_000_000);
    assert_eq!(r[1].document_id, "late");
    // "rust" begins at position 25 of "wonderful and dependable rust"
    assert_eq!(r[1].score, 1_000_000 + 1_000_000 / 26);
}

#[test]
fn substring_search_boundary_cases() {
    let mut engine = SearchEngine::new();
    engine
        .add_document(Document::new("d").attribute("content", "some text"))
        .unwrap();
    assert!(engine.search_substring("", 10).is_empty());
    assert!(engine.search_substring("!!!", 10).is_empty());
    assert!(engine.search_substring("some", 0).is_empty());
    assert_eq!(engine.search_substring("some", 99).len(), 1);
}

#[test]
fn fuzzy_search_tolerates_bounded_typos() {
    let mut engine = SearchEngine::new();
    engine
        .add_document(Document::new("ml").attribute("content", "machine learning with rust"))
        .unwrap();
    let r = engine.search_fuzzy("machne lerning", 5, 2);
    assert_eq!(r.len(), 1);
    assert_eq!(r[0].document_id, "ml");
    // token scores: (7-1)/7 and (8-1)/8 in parts per million, averaged,
    // with no full-phrase bonus: about 0.866
    let expected = (6_000_000u64 / 7 + 7_000_000u64 / 8) / 2;
    assert_eq!(r[0].score, expected);
    assert!(r[0].score > 860_000 && r[0].score < 875_000);
}

#[test]
fn fuzzy_search_exact_phrase_gets_the_bonus() {
    let mut engine = SearchEngine::new();
    engine
        .add_document(Document::new("ml").attribute("content", "machine learning with rust"))
        .unwrap();
    let r = engine.search_fuzzy("machine learning", 5, 2);
    assert_eq!(r.len(), 1);
    // both tokens match verbatim and the whole phrase occurs: 1.0 + 0.25
    assert_eq!(r[0].score, 1_250_000);
}

#[test]
fn fuzzy_search_boundary_cases() {
    let mut engine = SearchEngine::new();
    engine
        .add_document(Document::new("d").attribute("content", "totally different words"))
        .unwrap();
    assert!(engine.search_fuzzy("", 5, 2).is_empty());
    assert!(engine.search_fuzzy("zzzzzz", 5, 2).is_empty());
    assert!(engine.search_fuzzy("totally", 0, 2).is_empty());
}

#[test]
fn rrf_fuses_by_reciprocal_rank_with_entry_tie_break() {
    // text list [A, B, C] as entries [0, 1, 2]; vector list [C, B, A]
    let text = vec![0u32, 1, 2];
    let vector = vec![2u32, 1, 0];
    let fused = rrf_fuse(&text, &vector, 3);
    let part = |rank: u64| 0x100000000u64 / (61 + rank);
    // A and C each take ranks 0 and 2, so their fused keys tie and the
    // smaller entry comes first; B holds rank 1 twice, a slightly
    // smaller sum
    assert_eq!(fused.len(), 3);
    assert_eq!(fused[0], (0, part(0) + part(2)));
    assert_eq!(fused[1], (2, part(0) + part(2)));
    assert_eq!(fused[2], (1, 2 * part(1)));
    assert!(fused[2].1 < fused[0].1);
}

#[test]
fn rrf_keeps_entries_seen_in_only_one_list() {
    let text = vec![4u32, 7];
    let vector = vec![9u32];
    let fused = rrf_fuse(&text, &vector, 10);
    assert_eq!(fused.len(), 3);
    let part = |rank: u64| 0x100000000u64 / (61 + rank);
    assert_eq!(fused[0], (4, part(0)));
    assert_eq!(fused[1], (9, part(0)));
    assert_eq!(fused[2], (7, part(1)));
}

#[test]
fn single_element_vector_round_trips() {
    let mut vi = VectorIndex::new();
    assert!(vi.add_vector(0, vec![0.5f32.to_bits()]).is_ok());
    assert!(vi.enabled);
    assert_eq!(vi.dimension, 1);
    assert_eq!(vi.rows(), 1);
    assert_eq!(vi.row_bits(0), vec![0.5f32.to_bits()]);
    assert_eq!(vi.entry_of_row(0), 0);
    // the frozen dimension now rejects anything else
    assert!(vi.add_vector(1, vec![1.0f32.to_bits(), 2.0f32.to_bits()]).is_err());
    // an empty vector on a disabled index is swallowed without a trace
    let mut fresh = VectorIndex::new();
    assert!(fresh.add_vector(0, vec![]).is_ok());
    assert!(!fresh.enabled);
    assert_eq!(fresh.rows(), 0);
}

#[test]
fn scan_blob_concatenates_all_text_values() {
    let mut engine = SearchEngine::new();
    engine
        .add_document(
            Document::new("d")
                .attribute("title", "Alpha Centauri")
                .attribute("title", "closest star")
                .attribute("notes", "seen at night"),
        )
        .unwrap();
    // the phrase spans two values of the same attribute
    let r = engine.search_substring("centauri closest", 10);
    assert_eq!(r.len(), 1);
    assert_eq!(r[0].document_id, "d");
}
