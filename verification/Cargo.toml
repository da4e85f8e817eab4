[package]
name = "gepa"
version = "0.1.0"
edition = "2021"
publish = false

[dependencies]
async-trait = "0.1"
indexmap = { version = "2", features = ["serde"] }
rand = "0.8"
reqwest = { version = "0.12", default-features = false, features = ["json", "stream"] }
serde = { version = "1", features = ["derive"] }
serde_json = "1"
sha2 = "0.10"
thiserror = "2"
tokio = { version = "1", features = ["fs", "io-util", "macros", "process", "rt", "sync", "time"] }
tracing = "0.1"
