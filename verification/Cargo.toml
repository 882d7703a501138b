[package]
name = "vecdb-core"
version = "0.1.0"
edition = "2021"
publish = false

[dependencies]
crc32fast = "1"
memmap2 = "0.9"
rand = "0.8"
serde = { version = "1", features = ["derive"] }
serde_json = "1"
linfa = "0.7"
linfa-clustering = "0.7"
ndarray = "0.15"
axum = "0.7"
tokio = { version = "1", features = ["full"] }
tracing = "0.1"
tracing-subscriber = "0.3"
