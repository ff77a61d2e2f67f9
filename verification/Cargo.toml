[package]
name = "hypercube"
version = "0.1.0"
edition = "2021"
publish = false

[dependencies]
anyhow = "1"
disruptor = "*"
memmap2 = "*"
serde = { version = "1", features = ["derive"] }
serde_json = { version = "1", features = ["float_roundtrip"] }
thiserror = "*"
xxhash-rust = { version = "*", features = ["xxh64"] }
