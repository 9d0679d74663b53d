[package]
name = "means"
version = "0.1.0"
edition = "2021"
publish = false

[dependencies]
tokio = { version = "1", features = ["io-util", "macros", "net", "rt-multi-thread"] }
