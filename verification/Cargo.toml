[package]
name = "kv_engine"
version = "0.1.0"
edition = "2021"
publish = false

[dependencies]
axum = "0.8"
crc32fast = "1"
serde = { version = "1", features = ["derive"] }
tokio = { version = "1", features = ["macros", "net", "rt-multi-thread"] }
tracing = "0.1"
