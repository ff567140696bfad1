//! A hybrid in-memory search engine: a field-weighted lexical index with
//! BM25FS+ statistics, a flat dense-vector store, a substring / fuzzy scan
//! store, rank fusion, and a quantised fastText-compatible language
//! identifier.
//!
//! All scoring that needs floating point (BM25 impacts, dot products,
//! softmax) is computed by the embedding application from the exact integer
//! match data this crate produces; everything else — tokenization, index
//! bookkeeping, Bloom filtering, edit distance, ranking, binary model
//! parsing — is verified here.

pub mod bloom;
pub mod engine;
pub mod errors;
pub mod fusion;
pub mod kind;
pub mod langid;
pub mod lev;
pub mod scan;
pub mod strategy;
pub mod text_index;
pub mod tokenize;
pub mod topk;
pub mod vector_index;
