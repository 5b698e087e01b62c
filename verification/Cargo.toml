[package]
name = "matching_core"
version = "0.1.0"
edition = "2021"
publish = false

[dependencies]
anyhow = "1"
bincode = "1.3"
serde = { version = "1", features = ["derive"] }
tracing = "0.1"
