[package]
name = "japanese_text_analyzer"
version = "0.1.0"
edition = "2021"
publish = false

[dependencies]
zstd-safe = { version = "=7.2.4", features = ["experimental", "std"] }
serde = { version = "=1.0.229", features = ["derive"] }
serde_json = "=1.0.151"
walkdir = "=2.5.0"
