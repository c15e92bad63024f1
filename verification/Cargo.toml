[package]
name = "raftkv"
version = "0.1.0"
edition = "2021"
publish = false

[dependencies]
openraft = { version = "0.8", features = ["serde"] }
serde = { version = "1", features = ["derive"] }
serde_json = "1"
tokio = { version = "1", features = ["full"] }
thiserror = "1"
log = "0.4"
parking_lot = "0.12"
tracing = "0.1"
tracing-subscriber = "0.3"
