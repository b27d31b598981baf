[package]
name = "dir_budget"
version = "0.1.0"
edition = "2021"
publish = false

[dependencies]
colored = "2"
env_logger = "0.11"
envy = "0.4"
log = "0.4"
serde = { version = "1", features = ["derive"] }
