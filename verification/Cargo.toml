[package]
name = "hyperiondb"
version = "0.1.0"
edition = "2021"
publish = false

[dependencies]
dashmap = "6"
serde = { version = "1", features = ["derive"] }
serde_json = "1"
lz4 = "1"
tokio = { version = "1", features = ["full"] }
futures = "0.3"
napi = { version = "2", features = ["async"] }
napi-derive = "2"
rand = "0.8"
fake = { version = "2", features = ["chrono"] }
