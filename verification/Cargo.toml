[package]
name = "ytstrm"
version = "0.1.0"
edition = "2021"
publish = false

[dependencies]
serde_json = "=1.0.151"
url = "=2.5.8"
chrono = "=0.4.45"
serde = { version = "=1.0.229", features = ["derive"] }
anyhow = "=1.0.104"
dirs = "=7.0.0"
tokio = { version = "=1.53.2", features = ["rt-multi-thread", "macros", "process", "sync", "time", "fs", "net", "io-util"] }
tokio-util = { version = "*", default-features = false, features = ["io"] }
axum = "=0.8.9"
reqwest = { version = "=0.13.5", default-features = false }
