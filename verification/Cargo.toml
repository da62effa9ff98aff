[package]
name = "my_chat"
version = "0.1.0"
edition = "2021"
publish = false

[dependencies]
anyhow = "*"
bytes = "*"
chrono = "*"
env_logger = "*"
futures-util = "*"
once_cell = "*"
tokio = { version = "*", features = ["full"] }
tokio-tungstenite = "*"

[dev-dependencies]
serde_json = "*"
