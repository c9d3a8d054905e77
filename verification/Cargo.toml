[package]
name = "streaming"
version = "0.1.0"
edition = "2021"
publish = false

[dependencies]
async-trait = "0.1"
tokio = { version = "1", features = ["fs", "io-util", "net", "rt-multi-thread", "macros", "sync"] }
tracing = "0.1"
