[package]
name = "blackfiles"
version = "0.1.0"
edition = "2021"
publish = false

[dependencies]
tokio = { version = "1", features = ["fs", "rt", "rt-multi-thread", "io-util", "macros"] }
dotenvy = "0.15"
