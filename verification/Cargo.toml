[package]
name = "chatstore"
version = "0.1.0"
edition = "2021"
publish = false

[dependencies]
chrono = "0.4"
log = "0.4"
env_logger = "*"
openai-api-rs = "4"
