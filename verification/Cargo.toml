[package]
name = "phash_dedup"
version = "0.1.0"
edition = "2021"
publish = false

[dependencies]
blake3 = "1"
img_hash = "3"
image = "0.23"
clap = { version = "4", features = ["derive"] }
ffmpeg-next = "*"
indicatif = { version = "0.17", features = ["rayon"] }
rayon = "1"
serde = { version = "1", features = ["derive"] }
serde_json = "1"
thiserror = "1"
walkdir = "2"
