[package]
name = "parallel_decompression"
version = "0.1.0"
edition = "2021"
publish = false

[dependencies]
zstd = "*"
dashmap = "*"
ahash = "*"
rayon = "*"
anyhow = "*"
clap = { version = "*", features = ["derive"] }
byte-unit = "*"
