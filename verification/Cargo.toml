[package]
name = "kimchi"
version = "0.1.0"
edition = "2021"
publish = false

[dependencies]
anyhow = "*"
env_logger = "*"
futures-channel = "*"
futures-util = "*"
log = "*"
tokio = { version = "*", features = ["rt-multi-thread", "net", "macros"] }
tokio-tungstenite = "*"
