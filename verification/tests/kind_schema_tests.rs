//! The kind weight table, schema building, and document building.
//! Weights are in per-mille units: 2500 stands for 2.5 and 750 for 0.75.

use hybrid_search::engine::{default_quality, BrotliOptions, Document, DocumentId, DocumentStore, Schema, Value};
use hybrid_search::errors::{IndexError, VectorError};
use hybrid_search::kind::{FieldWeight, Kind};

fn weight_of<'a>(ws: &'a [(String, FieldWeight)], name: &str) -> Option<&'a FieldWeight> {
    ws.iter().find(|(n, _)| n == name).map(|(_, w)| w)
}

#[test]
fn search_test_kind_weights() {
    assert_eq!(Kind::TITLE.weights(), (2500, 750));
    assert_eq!(Kind::CONTENT.weights(), (1000, 750));
    assert_eq!(Kind::DESCRIPTION.weights(), (1500, 750));
    assert_eq!(Kind::HEADING.weights(), (2000, 750));
    assert_eq!(Kind::TAGS.weights(), (1800, 500));
    assert_eq!(Kind::AUTHOR.weights(), (1200, 600));
    assert_eq!(Kind::DATE.weights(), (800, 500));
    assert_eq!(Kind::REFERENCE.weights(), (600, 500));
    assert_eq!(Kind::TEXT.weights(), (1000, 750));
}

#[test]
fn search_engine_test_kind_weights() {
    assert_eq!(Kind::TITLE.weights(), (2500, 750));
    assert_eq!(Kind::CONTENT.weights(), (1000, 750));
    assert_eq!(Kind::DESCRIPTION.weights(), (1500, 750));
    assert_eq!(Kind::HEADING.weights(), (2000, 750));
    assert_eq!(Kind::TAGS.weights(), (1800, 500));
    assert_eq!(Kind::AUTHOR.weights(), (1200, 600));
    assert_eq!(Kind::DATE.weights(), (800, 500));
    assert_eq!(Kind::REFERENCE.weights(), (600, 500));
    assert_eq!(Kind::TEXT.weights(), (1000, 750));
}

#[test]
fn search_test_schema_builder_api() {
    let schema = Schema::builder()
        .attribute("title", Kind::TITLE)
        .attribute("content", Kind::CONTENT)
        .attribute("categories", Kind::TAGS)
        .build();

    assert_eq!(schema.field_count(), 3);

    let field_weights = schema.get_field_weights();

    let title_weight = weight_of(field_weights, "title").unwrap();
    assert_eq!(title_weight.weight, 2500);
    assert_eq!(title_weight.b, 750);
    assert_eq!(title_weight.kind, Kind::TITLE);

    let content_weight = weight_of(field_weights, "content").unwrap();
    assert_eq!(content_weight.weight, 1000);
    assert_eq!(content_weight.b, 750);
    assert_eq!(content_weight.kind, Kind::CONTENT);

    let tags_weight = weight_of(field_weights, "categories").unwrap();
    assert_eq!(tags_weight.weight, 1800);
    assert_eq!(tags_weight.b, 500);
    assert_eq!(tags_weight.kind, Kind::TAGS);
}

#[test]
fn search_engine_test_schema_builder_api() {
    let schema = Schema::builder()
        .attribute("title", Kind::TITLE)
        .attribute("content", Kind::CONTENT)
        .attribute("categories", Kind::TAGS)
        .build();

    assert_eq!(schema.field_count(), 3);

    let field_weights = schema.get_field_weights();

    let title_weight = weight_of(field_weights, "title").unwrap();
    assert_eq!(title_weight.weight, 2500);
    assert_eq!(title_weight.b, 750);
    assert_eq!(title_weight.kind, Kind::TITLE);

    let content_weight = weight_of(field_weights, "content").unwrap();
    assert_eq!(content_weight.weight, 1000);
    assert_eq!(content_weight.b, 750);
    assert_eq!(content_weight.kind, Kind::CONTENT);

    let tags_weight = weight_of(field_weights, "categories").unwrap();
    assert_eq!(tags_weight.weight, 1800);
    assert_eq!(tags_weight.b, 500);
    assert_eq!(tags_weight.kind, Kind::TAGS);
}

fn vector_bits(vs: &[f32]) -> Vec<u32> {
    vs.iter().map(|v| v.to_bits()).collect()
}

#[test]
fn search_test_document_builder_api() {
    let doc = Document::new("doc1")
        .attribute("title", "Machine Learning with Rust")
        .attribute("content", "Learn how to build ML models using Rust...")
        .with_vector(vector_bits(&[1.0, 2.0, 3.0]));

    assert_eq!(doc.get_id().0, "doc1");
    assert_eq!(doc.get_attributes().len(), 2);
    assert!(doc.get_vector().is_some());
    assert_eq!(doc.get_vector().unwrap().len(), 3);

    let title_values = &doc
        .get_attributes()
        .iter()
        .find(|(n, _)| n == "title")
        .unwrap()
        .1;
    assert_eq!(title_values.len(), 1);
    if let Value::Text(text) = &title_values[0] {
        assert_eq!(text, "Machine Learning with Rust");
    } else {
        panic!("Expected text value");
    }
}

#[test]
fn search_engine_test_document_builder_api() {
    let doc = Document::new("doc1")
        .attribute("title", "Machine Learning with Rust")
        .attribute("content", "Learn how to build ML models using Rust...")
        .with_vector(vector_bits(&[1.0, 2.0, 3.0]));

    assert_eq!(doc.get_id().0, "doc1");
    assert_eq!(doc.get_attributes().len(), 2);
    assert!(doc.get_vector().is_some());
    assert_eq!(doc.get_vector().unwrap().len(), 3);

    let title_values = &doc
        .get_attributes()
        .iter()
        .find(|(n, _)| n == "title")
        .unwrap()
        .1;
    assert_eq!(title_values.len(), 1);
    if let Value::Text(text) = &title_values[0] {
        assert_eq!(text, "Machine Learning with Rust");
    } else {
        panic!("Expected text value");
    }
}

#[test]
fn search_test_custom_weights() {
    let schema = Schema::builder()
        .attribute("title", Kind::TITLE)
        .attribute_with_weight("special_field", Kind::TEXT, 3000, Some(800))
        .build();

    let field_weights = schema.get_field_weights();

    let special_weight = weight_of(field_weights, "special_field").unwrap();
    assert_eq!(special_weight.weight, 3000);
    assert_eq!(special_weight.b, 800);
    assert_eq!(special_weight.kind, Kind::TEXT);
}

#[test]
fn search_engine_test_custom_weights() {
    let schema = Schema::builder()
        .attribute("title", Kind::TITLE)
        .attribute_with_weight("special_field", Kind::TEXT, 3000, Some(800))
        .build();

    let field_weights = schema.get_field_weights();

    let special_weight = weight_of(field_weights, "special_field").unwrap();
    assert_eq!(special_weight.weight, 3000);
    assert_eq!(special_weight.b, 800);
    assert_eq!(special_weight.kind, Kind::TEXT);
}

#[test]
fn document_store_keeps_one_document_per_id() {
    let mut store = DocumentStore::new();
    store.store_document(Document::new("a").attribute("title", "first"));
    store.store_document(Document::new("b").attribute("title", "second"));
    store.store_document(Document::new("a").attribute("title", "replaced"));
    assert_eq!(store.document_count(), 2);
    assert!(store.contains_document(&DocumentId::new("a")));
    assert!(!store.contains_document(&DocumentId::new("c")));
    let ids = store.document_ids();
    assert_eq!(ids.len(), 2);
    let removed = store.remove_document(&DocumentId::new("a"));
    assert!(removed.is_some());
    assert_eq!(store.document_count(), 1);
    assert!(store.remove_document(&DocumentId::new("a")).is_none());
    store.clear();
    assert_eq!(store.document_count(), 0);
}

#[test]
fn storage_options_and_error_messages() {
    assert_eq!(default_quality(), 6);
    assert_eq!(BrotliOptions::default().quality, 6);
    assert_eq!(
        VectorError::DimensionMismatch.message(),
        "vector dimension mismatch"
    );
    assert_eq!(
        IndexError::NotFound(String::from("doc9")).message(),
        "not found: doc9"
    );
}
