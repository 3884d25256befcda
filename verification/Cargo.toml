[package]
name = "randomx_pool"
version = "0.1.0"
edition = "2021"
publish = false

[dependencies]
chrono = "*"
crossbeam = "*"
ctrlc = "*"
env_logger = "*"
fluence-keypair = "*"
hex = "*"
log = "*"
rust-randomx = "*"
serde = { version = "*", features = ["derive"] }
serde_json = "*"
