[package]
name = "fast_steal"
version = "0.1.0"
edition = "2021"
publish = false

[dependencies]
crossbeam-channel = "*"
spin = "*"
tokio = { version = "*", features = ["rt", "rt-multi-thread", "sync"] }
