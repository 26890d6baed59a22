[package]
name = "fragment_manager"
version = "0.1.0"
edition = "2021"
publish = false

[dependencies]
anyhow = "1"
tokio = { version = "1", default-features = false, features = ["sync"] }
tracing = { version = "0.1", default-features = false }
