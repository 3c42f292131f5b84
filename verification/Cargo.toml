[package]
name = "tablestore"
version = "0.1.0"
edition = "2021"
publish = false

[dependencies]
serde = "1"
rmp-serde = "1"
tokio = { version = "1", features = ["rt-multi-thread", "sync", "macros"] }
