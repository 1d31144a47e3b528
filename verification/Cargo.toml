[package]
name = "tomlplus-syntax"
version = "2.0.0"
edition = "2021"
publish = false

[dependencies]
chrono = "0.4"
hostname = "0.4"
regex-lite = "0.1"
serde = { version = "1", features = ["derive"] }
serde_json = "1"
thiserror = "2"
tower-lsp = "0.20"
tokio = { version = "1", features = ["rt-multi-thread", "io-std", "macros"] }
dashmap = "6"
ropey = "1"
