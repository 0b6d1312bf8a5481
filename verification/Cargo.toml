[package]
name = "command_registry"
version = "0.1.0"
edition = "2021"
publish = false

[dependencies]
chrono = "*"
serde_json = "*"
rusqlite = { version = "*", features = ["bundled"] }
dotenv = "*"
log = "*"
env_logger = "*"
