[package]
name = "lsif_indexer"
version = "0.1.0"
edition = "2021"
publish = false

[dependencies]
petgraph = "0.6"
regex = "1"
xxhash-rust = { version = "0.8", features = ["xxh3"] }
serde = { version = "1", features = ["derive"] }
serde_json = "1"
clap = { version = "4", features = ["derive"] }
anyhow = "1"
sled = "0.34"
bincode = "1"
walkdir = "2"
glob = "0.3"
chrono = { version = "0.4", features = ["serde"] }
git2 = "0.19"
lsp-types = "0.95"
tracing = "0.1"
tracing-subscriber = { version = "0.3", features = ["env-filter"] }
rayon = "1"
tokio = { version = "1", features = ["full"] }
indicatif = "0.17"
parking_lot = "0.12"

[dev-dependencies]
tempfile = "3"
