[package]
name = "inference_core"
version = "0.1.0"
edition = "2021"
publish = false

[dependencies]
gemm = "0.17"
itertools = "0.12"
lru = "0.12"
memmap2 = "0.9"
patricia_tree = "0.8"
tokio = { version = "1", default-features = false, features = ["rt", "rt-multi-thread", "sync"] }
