//! Unit tests for the verified building blocks: hashing, edit distance,
//! Bloom filtering, ranking, workload dispatch, and tokenization.

use hybrid_search::bloom::BloomFilter;
use hybrid_search::langid::hash_ngram;
use hybrid_search::lev::levenshtein_within;
use hybrid_search::scan::normalize_parts;
use hybrid_search::strategy::{chunk_ranges, strategy_chunk_size, Strategy, WorkloadProfile};
use hybrid_search::tokenize::{TextProcessor, TokenizerConfig};
use hybrid_search::text_index::TextIndex;
use hybrid_search::topk::rank_top_k;

#[test]
fn fnv1a_reference_vector() {
    // the canonical 32-bit FNV-1a value for "abc"
    assert_eq!(hash_ngram(b"abc"), 0x1A47E90B);
    assert_eq!(hash_ngram(b""), 2166136261);
}

fn chars(s: &str) -> Vec<char> {
    s.chars().collect()
}

#[test]
fn levenshtein_matches_reference_distances() {
    let a = chars("kitten");
    let b = chars("sitting");
    assert_eq!(levenshtein_within(&a, &b, usize::MAX), Some(3));
    assert_eq!(levenshtein_within(&a, &b, 3), Some(3));
    assert_eq!(levenshtein_within(&a, &b, 2), None);
    assert_eq!(levenshtein_within(&a, &a, 0), Some(0));
    assert_eq!(levenshtein_within(&chars(""), &chars("abc"), 5), Some(3));
    assert_eq!(levenshtein_within(&chars(""), &chars("abc"), 2), None);
    assert_eq!(levenshtein_within(&chars("machne"), &chars("machine"), 2), Some(1));
}

#[test]
fn levenshtein_cutoff_agrees_with_unbounded() {
    let pairs = [
        ("", ""),
        ("a", ""),
        ("abc", "abc"),
        ("abc", "abd"),
        ("flaw", "lawn"),
        ("gumbo", "gambol"),
    ];
    for (x, y) in pairs.iter() {
        let full = levenshtein_within(&chars(x), &chars(y), usize::MAX).unwrap();
        for k in 0..6usize {
            let bounded = levenshtein_within(&chars(x), &chars(y), k);
            if full <= k {
                assert_eq!(bounded, Some(full));
            } else {
                assert_eq!(bounded, None);
            }
        }
    }
}

#[test]
fn bloom_filter_reports_inserted_terms() {
    let mut f = BloomFilter::new();
    assert!(!f.contains("machine"));
    f.insert("machine");
    assert!(f.contains("machine"));
    f.insert("learning");
    assert!(f.contains("machine"));
    assert!(f.contains("learning"));
}

#[test]
fn rank_top_k_sorts_and_breaks_ties_by_entry() {
    let scored = vec![(7u32, 10u64), (1, 30), (5, 20), (3, 30), (9, 5)];
    let top = rank_top_k(&scored, 4);
    // descending keys; the tie at 30 goes to the smaller entry
    assert_eq!(top, vec![(1, 30), (3, 30), (5, 20), (7, 10)]);
    let all = rank_top_k(&scored, 10);
    assert_eq!(all.len(), 5);
    let none = rank_top_k(&scored, 0);
    assert!(none.is_empty());
}

#[test]
fn workload_dispatch_matches_thresholds() {
    // tiny workloads stay sequential
    assert_eq!(
        WorkloadProfile::new(10, 10).optimal_strategy(),
        Strategy::Sequential
    );
    // plenty of pairs but few flops: cache-friendly sequential
    assert_eq!(
        WorkloadProfile::new(10000, 100).optimal_strategy(),
        Strategy::SequentialCacheFriendly
    );
    // a memory footprint above a tenth of a GiB streams
    assert_eq!(
        WorkloadProfile::new(100000, 200).optimal_strategy(),
        Strategy::ParallelStreaming
    );
    // above ten million flops without the memory pressure: aggressive
    assert_eq!(
        WorkloadProfile::new(6000, 1000).optimal_strategy(),
        Strategy::ParallelAggressive
    );
}

#[test]
fn chunking_covers_the_pair_range() {
    let ranges = chunk_ranges(10, 4);
    assert_eq!(ranges, vec![(0, 4), (4, 4), (8, 2)]);
    assert_eq!(chunk_ranges(0, 4), vec![]);
    assert_eq!(chunk_ranges(8, 4), vec![(0, 4), (4, 4)]);
    assert_eq!(strategy_chunk_size(Strategy::ParallelStreaming, 5000, 8), 1024);
    assert_eq!(strategy_chunk_size(Strategy::ParallelAggressive, 10000, 8), 312);
    assert_eq!(strategy_chunk_size(Strategy::ParallelAggressive, 100, 8), 16);
}

#[test]
fn tokenizer_cleans_filters_and_stems() {
    let p = TextProcessor::new();
    let tokens = p.process_text("Compilers, GARDENS! a the Connections");
    let surfaces: Vec<&str> = tokens.iter().map(|t| t.text.as_str()).collect();
    // "a" is too short, "the" is a stop word
    assert_eq!(surfaces, vec!["compilers", "gardens", "connections"]);
    assert_eq!(tokens[0].position, 0);
    assert_eq!(tokens[1].position, 1);
    assert_eq!(tokens[2].position, 4);
    assert_eq!(tokens[2].stemmed.as_deref(), Some("connect"));
}

#[test]
fn tokenizer_is_idempotent_on_its_surface_forms() {
    // re-processing the surface forms the pipeline produced yields the
    // same surface forms
    let p = TextProcessor::new();
    let first = p.process_text("Compilers, Gardens & Zebras!");
    let surfaces: Vec<String> = first.iter().map(|t| t.text.clone()).collect();
    let joined = surfaces.join(" ");
    let second = p.process_text(&joined);
    let again: Vec<String> = second.iter().map(|t| t.text.clone()).collect();
    assert_eq!(surfaces, again);
}

#[test]
fn tokenizer_without_filters_keeps_everything() {
    let cfg = TokenizerConfig {
        language: hybrid_search::kind::Language::English,
        stop_words_enabled: false,
        stemming_enabled: false,
        min_token_length: 0,
        max_token_length: 100,
    };
    let p = TextProcessor::with_config(cfg);
    let tokens = p.process_text("the cat");
    assert_eq!(tokens.len(), 2);
    assert_eq!(tokens[0].text, "the");
    assert!(tokens[0].stemmed.is_none());
}

#[test]
fn normalization_lowercases_and_collapses() {
    let (blob, words) = normalize_parts("  Hello,   World!! 42 ");
    let blob_s: String = blob.iter().collect();
    assert_eq!(blob_s, "hello world 42");
    assert_eq!(words.len(), 3);
    let w0: String = words[0].iter().collect();
    assert_eq!(w0, "hello");
    let (empty_blob, empty_words) = normalize_parts("!!! ,,, ...");
    assert!(empty_blob.is_empty());
    assert!(empty_words.is_empty());
}

#[test]
fn document_frequency_counts_distinct_documents() {
    let mut ti = TextIndex::new();
    // the term occurs three times across two documents and two fields
    ti.add_document(0, "title", "gardens everywhere");
    ti.add_document(0, "content", "gardens again gardens");
    ti.add_document(1, "content", "more gardens");
    let matches = ti.text_matches("gardens");
    assert_eq!(matches.len(), 1);
    // document frequency is the number of distinct documents, not the
    // number of insertion events
    assert_eq!(matches[0].df, 2);
    // postings: (doc 0, title, tf 1), (doc 0, content, tf 2), (doc 1, content, tf 1)
    assert_eq!(matches[0].postings.len(), 3);
    assert_eq!(matches[0].postings[0], (0, 0, 1));
    assert_eq!(matches[0].postings[1], (0, 1, 2));
    assert_eq!(matches[0].postings[2], (1, 1, 1));
}

#[test]
fn field_length_totals_track_the_tables() {
    let mut ti = TextIndex::new();
    ti.add_document(0, "content", "ripe plums fell");
    ti.add_document(1, "content", "ripe apples");
    assert_eq!(ti.fields.len(), 1);
    // three tokens, then two
    assert_eq!(ti.field_len[0], vec![3, 2]);
    assert_eq!(ti.field_len_total[0], 5);
    assert_eq!(ti.total_docs, 2);
}
