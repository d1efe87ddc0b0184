[package]
name = "lynx_bridge"
version = "0.1.0"
edition = "2021"
publish = false

[dependencies]
serde = { version = "*", features = ["derive"] }
serde_json = "*"
parking_lot = "*"
tokio = { version = "*", features = ["full"] }
axum = "*"
log = "*"
env_logger = "*"
