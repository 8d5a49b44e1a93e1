[package]
name = "reality-engine"
version = "0.3.0"
edition = "2021"
publish = false

[dependencies]
rustc-hash = "2"
serde_json = "1"
axum = { version = "0.7", features = ["ws"] }
tokio = { version = "1", features = ["rt-multi-thread", "net", "sync", "macros"] }
clap = { version = "4", features = ["derive"] }
