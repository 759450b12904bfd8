[package]
name = "executor"
version = "0.1.0"
edition = "2021"
publish = false

[dependencies]
actix-web = "*"
sha2 = "*"
env_logger = "*"
futures = "*"
serde = { version = "*", features = ["derive"] }
tempfile = "*"
tokio = { version = "*", features = ["full"] }
tokio-util = { version = "*", features = ["io"] }
