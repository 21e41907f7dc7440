[package]
name = "dispatch_ng"
version = "0.1.0"
edition = "2021"
publish = false

[dependencies]
clap = { version = "*", features = ["derive"] }
env_logger = "*"
futures = "*"
log = "*"
tokio = { version = "*", features = ["net", "io-util", "rt", "rt-multi-thread"] }
