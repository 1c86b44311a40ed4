[package]
name = "keel"
version = "0.1.0"
edition = "2021"
publish = false

[dependencies]
clap = { version = "4", features = ["derive", "env"] }
memmap2 = "0.9"
prost = "0.12"
serde = { version = "1", features = ["derive"] }
serde_json = "1"
tantivy = "0.22"
thiserror = "1"
tokio = { version = "1", features = ["full"] }
tonic = "0.11"
tracing = "0.1"
tracing-subscriber = "0.3"
usearch = "2"
uuid = { version = "1", features = ["v4"] }
