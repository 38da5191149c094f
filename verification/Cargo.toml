[package]
name = "quickwit_core"
version = "0.1.0"
edition = "2021"
publish = false

[dependencies]
anyhow = "1"
chitchat = "0.4"
futures = "0.3"
itertools = "0.10"
once_cell = "1"
serde = { version = "1", features = ["derive"] }
tantivy = { version = "0.19", default-features = false, features = ["quickwit"] }
tokio = { version = "1", features = ["macros", "rt-multi-thread", "sync", "time"] }
tokio-stream = { version = "0.1", features = ["sync"] }
tracing = "0.1"
