[package]
name = "fulmicoton"
version = "0.1.0"
edition = "2021"
publish = false

[dependencies]
bytes = "=1.12.1"
chrono = "=0.4.45"
rust-lzma = "*"
serde = { version = "=1.0.229", features = ["derive"] }
serde_json = "=1.0.154"
zstd = "=0.14.3"
