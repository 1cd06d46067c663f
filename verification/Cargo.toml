[package]
name = "fastregex"
version = "0.1.0"
edition = "2021"
publish = false

[dependencies]
xxhash-rust = { version = "0.8", features = ["xxh3"] }
blake3 = "1"
memchr = "2"
pcre2 = "0.2"
globset = "0.4"
dashmap = "6"
serde = { version = "1", features = ["derive"] }
serde_json = "1"
anyhow = "1"
thiserror = "*"
walkdir = "2"
memmap2 = "*"
parking_lot = "0.12"
rayon = "1"
tracing-subscriber = { version = "0.3", features = ["env-filter", "fmt"] }
