[package]
name = "beet"
version = "0.1.0"
edition = "2021"
publish = false

[dependencies]
bytes = "1"
tokio = { version = "1", features = ["full"] }
log = "0.4"
env_logger = "0.11"
