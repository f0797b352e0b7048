[package]
name = "dlob"
version = "0.1.0"
edition = "2021"
publish = false

[dependencies]
dashmap = "=5.5.3"
mut-binary-heap = "=0.1.0"
serde_json = "1"
solana-sdk = { version = "=2.3.1", default-features = false }
