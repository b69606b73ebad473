[package]
name = "chat_core"
version = "0.1.0"
edition = "2021"
publish = false

[dependencies]
async-std = "1"
futures = "0.3"
serde = { version = "1", features = ["derive"] }
serde_json = "1"
