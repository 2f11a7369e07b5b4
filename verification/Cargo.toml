[package]
name = "fast_logger"
version = "0.1.0"
edition = "2021"
publish = false

[dependencies]
chrono = { version = "0.4", default-features = false, features = ["clock"] }
colored = "2"
crossbeam-channel = "0.5"
