[package]
name = "copy_confirmer"
version = "0.1.0"
edition = "2021"
publish = false

[dependencies]
blake2 = "0.10"
threadpool = "1.8"
walkdir = "2"
indicatif = "0.17"
clap = { version = "4", features = ["derive"] }
colored = "2"
env_logger = "0.10"
log = "0.4"
serde = { version = "1", features = ["derive"] }
serde_json = "1"
