[package]
name = "qwen3-burn"
version = "0.1.0"
edition = "2021"
publish = false

[dependencies]
burn = { version = "=0.21.0", default-features = false, features = ["flex", "store"] }
burn-store = { version = "=0.21.0", default-features = false, features = ["std", "safetensors", "burnpack"] }
half = "2"
rand = "0.9"
rootcause = "=0.13.0"
thiserror = "2"
