[package]
name = "canonical_heuristics"
version = "0.1.0"
edition = "2021"
publish = false

[dependencies]
burn = { version = "0.21.0", default-features = false, features = ["ndarray"] }
safetensors = "0.7.0"
serde_json = "1.0"
