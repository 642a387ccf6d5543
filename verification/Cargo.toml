[package]
name = "edge_ingest"
version = "0.1.0"
edition = "2021"
publish = false

[dependencies]
anyhow = "1"
prometheus = { version = "*", default-features = false }
tokio = { version = "1", default-features = false, features = ["sync"] }
tracing = { version = "0.1", default-features = false, features = ["std"] }
