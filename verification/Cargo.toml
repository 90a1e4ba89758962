[package]
name = "tti_stats"
version = "0.1.0"
edition = "2021"
publish = false

[dependencies]
anyhow = "1"
hdrhistogram = "7"
serde = { version = "1", features = ["derive"] }
serde_json = "1"
walkdir = "2"
