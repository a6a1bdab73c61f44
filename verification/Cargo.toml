[package]
name = "augorama"
version = "0.1.0"
edition = "2021"
publish = false

[dependencies]
chrono = { version = "0.4", features = ["serde"] }
env_logger = "0.7"
log = "0.4"
serde = { version = "1", features = ["derive"] }
warp = "0.1"
