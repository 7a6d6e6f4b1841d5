[package]
name = "sf_indexer"
version = "0.1.0"
edition = "2021"
publish = false

[dependencies]
anyhow = "1"
backoff = { version = "0.4", features = ["futures", "tokio"] }
eyre = "0.6"
futures = "0.3"
jsonrpsee = { version = "0.16", features = ["http-client"] }
prost = "0.11"
tokio = { version = "1", features = ["full"] }
tracing = "0.1"
