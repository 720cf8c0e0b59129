[package]
name = "optiscore"
version = "0.1.0"
edition = "2021"
publish = false

[dependencies]
jieba-rs = "=0.11.0"
burn = { version = "=0.18.0", default-features = false, features = ["std", "train", "autodiff", "ndarray", "dataset"] }
anyhow = "=1.0.104"
