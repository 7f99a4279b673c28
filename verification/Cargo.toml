[package]
name = "quantadb"
version = "0.1.0"
edition = "2021"
publish = false

[dependencies]
clap = { version = "4", features = ["derive"] }
comfy-table = "7"
crc32fast = "1"
dashmap = "5"
fs2 = "0.4"
rustyline = "14"
serde = { version = "1", features = ["derive"] }
serde_json = "1"
sqlparser = "0.40"
thiserror = "1"
tokio = { version = "1", features = ["full"] }
tracing = "0.1"
tracing-subscriber = { version = "0.3", features = ["env-filter"] }
walkdir = "2"
