[package]
name = "labworks"
version = "0.1.0"
edition = "2021"
publish = false

[dependencies]
tokio = { version = "1", features = ["fs", "io-util", "macros", "rt-multi-thread", "sync", "time"] }
walkdir = "2"
async_ftp = "*"
serde = { version = "1", features = ["derive"] }
serde_derive = "1"
serde_json = "1"
