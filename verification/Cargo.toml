[package]
name = "hybrid_search"
version = "0.1.0"
edition = "2021"
publish = false

[dependencies]
rust-stemmers = "*"
stop-words = "*"
rayon = "*"
lru = "*"
