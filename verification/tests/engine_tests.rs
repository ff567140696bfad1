//! End-to-end engine scenarios.  The engine maintains the exact integer
//! match data; these tests compute the floating-point BM25FS+ impacts and
//! cosine similarities from it, the way the embedding application does,
//! and rank through the verified top-k selection.

use hybrid_search::engine::{Document, Schema, SearchEngine};
use hybrid_search::fusion::rrf_fuse;
use hybrid_search::kind::Kind;
use hybrid_search::topk::rank_top_k;
use std::collections::HashMap;

fn vector_bits(vs: &[f32]) -> Vec<u32> {
    vs.iter().map(|v| v.to_bits()).collect()
}

/// A monotone integer key for a (possibly negative) f32 score.
fn score_key(s: f32) -> u64 {
    let b = s.to_bits();
    let k = if s >= 0.0 { b as u64 + 0x8000_0000 } else { (!b) as u64 & 0x7FFF_FFFF };
    k
}

/// BM25FS+ text search: impacts from the engine's exact match data.
fn bm25_search(e: &SearchEngine, query: &str, top_k: usize) -> Vec<(String, f32)> {
    let matches = e.text_index.text_matches(query);
    let n = (e.text_index.total_docs as f32).max(1.0);
    let k1 = e.text_index.config.k1 as f32 / 1000.0;
    let delta = e.text_index.config.delta as f32 / 1000.0;
    let mut scores: HashMap<u32, f32> = HashMap::new();
    for m in &matches {
        let df = (m.df as f32).max(1.0);
        let idf = ((n - df + 0.5) / (df + 0.5)).ln().max(0.0);
        for &(entry, field, tf) in m.postings.iter() {
            let fname = &e.text_index.fields[field as usize];
            let (w, b) = e
                .text_index
                .config
                .field_weights
                .iter()
                .find(|(fw_name, _)| fw_name == fname)
                .map(|(_, fw)| (fw.weight as f32 / 1000.0, fw.b as f32 / 1000.0))
                .unwrap_or((1.0, 0.75));
            let table = &e.text_index.field_len[field as usize];
            let len = table.get(entry as usize).copied().unwrap_or(0) as f32;
            let avg =
                (e.text_index.field_len_total[field as usize] as f32) / (table.len() as f32);
            let norm = 1.0 - b + b * (len / avg);
            let tf = tf as f32;
            let impact = (w * idf * ((k1 + 1.0) * tf) / (k1 * norm + tf) + delta).max(0.0);
            *scores.entry(entry).or_insert(0.0) += impact;
        }
    }
    let scored: Vec<(u32, u64)> = scores.iter().map(|(&e, &s)| (e, score_key(s))).collect();
    let ranked = rank_top_k(&scored, top_k);
    ranked
        .iter()
        .map(|&(entry, _)| {
            (
                e.document_id_of(entry).unwrap(),
                *scores.get(&entry).unwrap(),
            )
        })
        .collect()
}

/// Cosine-style vector search on the stored rows, as the application runs
/// it: dot product over the query divided by the stored row's magnitude.
fn cosine_search(e: &SearchEngine, query: &[f32], top_k: usize) -> Vec<(String, f32)> {
    if !e.vector_index.enabled || query.len() != e.vector_index.dimension {
        return Vec::new();
    }
    let mut scored: Vec<(u32, u64)> = Vec::new();
    let mut raw: HashMap<u32, f32> = HashMap::new();
    for i in 0..e.vector_index.rows() {
        let bits = e.vector_index.row_bits(i);
        let stored: Vec<f32> = bits.iter().map(|&b| f32::from_bits(b)).collect();
        let mut dot = 0.0f32;
        let mut mag = 0.0f32;
        for j in 0..stored.len() {
            dot += query[j] * stored[j];
            mag += stored[j] * stored[j];
        }
        let sim = if mag > 0.0 { dot / mag.sqrt() } else { 0.0 };
        let entry = e.vector_index.entry_of_row(i);
        raw.insert(entry, sim);
        scored.push((entry, score_key(sim)));
    }
    let ranked = rank_top_k(&scored, top_k);
    ranked
        .iter()
        .map(|&(entry, _)| (e.document_id_of(entry).unwrap(), *raw.get(&entry).unwrap()))
        .collect()
}

#[test]
fn search_test_search_engine_with_schema() {
    let schema = Schema::builder()
        .attribute("title", Kind::TITLE)
        .attribute("content", Kind::CONTENT)
        .build();

    let mut engine = SearchEngine::with_schema(schema);

    assert_eq!(engine.schema.field_count(), 2);

    let doc = Document::new("test_doc")
        .attribute("title", "Test Document")
        .attribute("content", "This is test content");

    let result = engine.add_document(doc);
    assert!(result.is_ok());
    assert!(engine.collection.documents.len() > 0);
}

#[test]
fn search_engine_test_search_engine_with_schema() {
    let schema = Schema::builder()
        .attribute("title", Kind::TITLE)
        .attribute("content", Kind::CONTENT)
        .build();

    let mut engine = SearchEngine::with_schema(schema);

    assert_eq!(engine.schema.field_count(), 2);

    let doc = Document::new("test_doc")
        .attribute("title", "Test Document")
        .attribute("content", "This is test content");

    let result = engine.add_document(doc);
    assert!(result.is_ok());
    assert!(engine.collection.documents.len() > 0);
}

fn readme_engine() -> SearchEngine {
    let schema = Schema::builder()
        .attribute("title", Kind::TITLE)
        .attribute("content", Kind::CONTENT)
        .attribute("categories", Kind::TAGS)
        .build();

    let mut engine = SearchEngine::with_schema(schema);

    let doc = Document::new("doc1")
        .attribute("title", "Machine Learning with Rust")
        .attribute("content", "Learn how to build ML models using Rust...")
        .with_vector(vector_bits(&[0.1, 0.2, 0.3, 0.4, 0.5]));
    engine.add_document(doc).unwrap();

    let doc2 = Document::new("doc2")
        .attribute("title", "Python for Data Science")
        .attribute("content", "Master data science with Python libraries...")
        .with_vector(vector_bits(&[0.2, 0.1, 0.4, 0.3, 0.6]));
    engine.add_document(doc2).unwrap();

    let doc3 = Document::new("doc3")
        .attribute("title", "Rust Programming Guide")
        .attribute("content", "Complete guide to Rust programming language...")
        .with_vector(vector_bits(&[0.3, 0.4, 0.1, 0.5, 0.2]));
    engine.add_document(doc3).unwrap();

    engine
}

fn readme_checks(engine: &SearchEngine) {
    // text-only search
    let text_results = bm25_search(engine, "machine learning", 10);
    assert!(!text_results.is_empty());
    assert_eq!(text_results[0].0, "doc1");

    // vector-only search
    let query_vector = [0.1, 0.2, 0.3, 0.4, 0.5];
    let vector_results = cosine_search(engine, &query_vector, 10);
    assert!(!vector_results.is_empty());

    // hybrid search via reciprocal rank fusion
    let text_entries: Vec<u32> = bm25_search(engine, "machine learning rust", 20)
        .iter()
        .map(|(id, _)| {
            engine
                .doc_id_mapping
                .iter()
                .position(|d| d == id)
                .unwrap() as u32
        })
        .collect();
    let vector_entries: Vec<u32> = cosine_search(engine, &query_vector, 20)
        .iter()
        .map(|(id, _)| {
            engine
                .doc_id_mapping
                .iter()
                .position(|d| d == id)
                .unwrap() as u32
        })
        .collect();
    let fused = rrf_fuse(&text_entries, &vector_entries, 10);
    assert!(!fused.is_empty());
    let fused_ids: Vec<String> = fused
        .iter()
        .map(|&(entry, _)| engine.document_id_of(entry).unwrap())
        .collect();
    assert!(fused_ids.contains(&"doc1".to_string()));

    // engine statistics
    assert_eq!(engine.collection.documents.len(), 3);
    let (docs, terms) = engine.get_stats();
    assert_eq!(docs, 3);
    assert!(terms > 0);
}

#[test]
fn search_test_readme_examples() {
    let engine = readme_engine();
    readme_checks(&engine);
}

#[test]
fn search_engine_test_readme_examples() {
    let engine = readme_engine();
    readme_checks(&engine);
}

#[test]
fn bm25_field_boost_prefers_title() {
    // two docs with the query term, one in the title and one in the
    // content, plus distractors so the inverse document frequency is
    // positive
    let schema = Schema::builder()
        .attribute("title", Kind::TITLE)
        .attribute("content", Kind::CONTENT)
        .build();
    let mut engine = SearchEngine::with_schema(schema);
    engine
        .add_document(
            Document::new("docA")
                .attribute("title", "zebra facts")
                .attribute("content", "plain filler text here"),
        )
        .unwrap();
    engine
        .add_document(
            Document::new("docB")
                .attribute("title", "other matters")
                .attribute("content", "zebra filler text here"),
        )
        .unwrap();
    for i in 0..8 {
        engine
            .add_document(
                Document::new(&format!("filler{}", i))
                    .attribute("title", "unrelated things")
                    .attribute("content", "nothing about stripes"),
            )
            .unwrap();
    }
    let results = bm25_search(&engine, "zebra", 10);
    assert_eq!(results[0].0, "docA");
    assert_eq!(results[1].0, "docB");
    // the weighted impact of the title hit is larger; with the additive
    // shift the ratio stays below the raw title boost of 2.5
    let ratio = results[0].1 / results[1].1;
    assert!(ratio > 1.5 && ratio <= 2.5, "ratio was {}", ratio);
}

#[test]
fn bm25_two_doc_tie_breaks_by_insertion_order() {
    // with only two documents both containing the term, the inverse
    // document frequency vanishes and both scores reduce to the additive
    // shift; the earlier entry wins the tie
    let schema = Schema::builder()
        .attribute("title", Kind::TITLE)
        .attribute("content", Kind::CONTENT)
        .build();
    let mut engine = SearchEngine::with_schema(schema);
    engine
        .add_document(
            Document::new("docA")
                .attribute("title", "zebra facts")
                .attribute("content", "plain filler text here"),
        )
        .unwrap();
    engine
        .add_document(
            Document::new("docB")
                .attribute("title", "other matters")
                .attribute("content", "zebra filler text here"),
        )
        .unwrap();
    let results = bm25_search(&engine, "zebra", 10);
    assert_eq!(results.len(), 2);
    assert_eq!(results[0].0, "docA");
    assert_eq!(results[0].1, results[1].1);
}

#[test]
fn vector_top_k_orders_by_similarity() {
    let schema = Schema::builder()
        .attribute("title", Kind::TITLE)
        .vector_dimension(5)
        .build();
    let mut engine = SearchEngine::with_schema(schema);
    engine
        .add_document(
            Document::new("d1")
                .attribute("title", "one")
                .with_vector(vector_bits(&[1.0, 0.0, 0.0, 0.0, 0.0])),
        )
        .unwrap();
    engine
        .add_document(
            Document::new("d2")
                .attribute("title", "two")
                .with_vector(vector_bits(&[0.0, 1.0, 0.0, 0.0, 0.0])),
        )
        .unwrap();
    engine
        .add_document(
            Document::new("d3")
                .attribute("title", "three")
                .with_vector(vector_bits(&[0.9, 0.1, 0.0, 0.0, 0.0])),
        )
        .unwrap();
    let results = cosine_search(&engine, &[1.0, 0.0, 0.0, 0.0, 0.0], 2);
    assert_eq!(results.len(), 2);
    assert_eq!(results[0].0, "d1");
    assert_eq!(results[1].0, "d3");
}

#[test]
fn dimension_mismatch_rejects_and_changes_nothing() {
    let schema = Schema::builder()
        .attribute("title", Kind::TITLE)
        .vector_dimension(3)
        .build();
    let mut engine = SearchEngine::with_schema(schema);
    let bad = Document::new("bad")
        .attribute("title", "some text")
        .with_vector(vector_bits(&[1.0, 2.0]));
    let r = engine.add_document(bad);
    assert!(r.is_err());
    let (docs, terms) = engine.get_stats();
    assert_eq!(docs, 0);
    assert_eq!(terms, 0);
    assert_eq!(engine.vector_index.rows(), 0);
}

#[test]
fn unknown_field_is_still_indexed() {
    // a field outside the schema is indexed with the default weight, as
    // the ingest path does not filter by schema
    let schema = Schema::builder().attribute("title", Kind::TITLE).build();
    let mut engine = SearchEngine::with_schema(schema);
    engine
        .add_document(Document::new("d1").attribute("surprise", "quokka sightings"))
        .unwrap();
    let results = bm25_search(&engine, "quokka", 10);
    assert_eq!(results.len(), 1);
    assert_eq!(results[0].0, "d1");
}

#[test]
fn empty_document_and_empty_query_are_harmless() {
    let mut engine = SearchEngine::new();
    engine.add_document(Document::new("empty")).unwrap();
    assert_eq!(engine.get_stats(), (1, 0));
    assert!(bm25_search(&engine, "", 10).is_empty());
    assert!(bm25_search(&engine, "anything", 10).is_empty());
    assert!(engine.search_substring("", 10).is_empty());
}

#[test]
fn stop_word_only_query_matches_nothing() {
    let mut engine = SearchEngine::new();
    engine
        .add_document(Document::new("d").attribute("content", "the cat sat on the mat"))
        .unwrap();
    // every query token is filtered as a stop word
    assert!(bm25_search(&engine, "the and of", 10).is_empty());
}

#[test]
fn mismatch_error_names_the_expected_dimension() {
    let schema = Schema::builder()
        .attribute("title", Kind::TITLE)
        .vector_dimension(7)
        .build();
    let mut engine = SearchEngine::with_schema(schema);
    let bad = Document::new("bad")
        .attribute("title", "some text")
        .with_vector(vector_bits(&[1.0]));
    let err = engine.add_document(bad).unwrap_err();
    let text = err.message();
    assert!(text.contains("dimension"), "message was {}", text);
    assert!(text.contains('7'), "message was {}", text);
}
