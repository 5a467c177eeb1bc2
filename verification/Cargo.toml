[package]
name = "shm_pool"
version = "0.1.0"
edition = "2021"
publish = false

[dependencies]
async-std = { version = "1", features = ["attributes"] }
clap = "3"
env_logger = "*"
flume = "*"
log = "*"
rand = "0.8"
serde_json = "1"
