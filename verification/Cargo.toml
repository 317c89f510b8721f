[package]
name = "photoslibrary"
version = "0.1.0"
edition = "2021"
publish = false

[dependencies]
anyhow = "*"
chrono = "*"
futures = "*"
libsql = "*"
tokio = { version = "*", features = ["rt-multi-thread", "macros", "sync"] }
