[package]
name = "dedup_cache"
version = "0.1.0"
edition = "2021"
publish = false

[dependencies]
anyhow = "=1.0.104"
reqwest = { version = "=0.13.5", default-features = false, features = ["query"] }
serde = { version = "=1.0.229", features = ["derive"] }
serde_json = "=1.0.151"
tokio = { version = "=1.53.2", features = ["macros", "rt", "sync", "time", "fs"] }
tracing = "=0.1.44"
tracing-subscriber = "=0.3.23"
