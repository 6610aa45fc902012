[package]
name = "quickwit"
version = "0.1.0"
edition = "2021"
publish = false

[dependencies]
regex = "1"
regex-syntax = "0.8"
serde = { version = "1", features = ["derive"] }
anyhow = "1"
tokio = { version = "1", features = ["rt", "time", "sync"] }
futures = "0.3"
tracing = "0.1"
async-trait = "0.1"
tonic = { version = "0.12", default-features = false }
