[package]
name = "trojan_ui"
version = "0.1.0"
edition = "2021"
publish = false

[dependencies]
serde = { version = "1", features = ["derive"] }
serde_json = "1"
chrono = "0.4"
tokio = { version = "1", features = ["rt-multi-thread", "sync"] }
log = "0.4"
env_logger = "*"
trojan_rust = "*"

[dev-dependencies]
regex = "1"
