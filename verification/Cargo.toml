[package]
name = "soft-unet"
version = "0.1.0"
edition = "2021"
publish = false

[dependencies]
anyhow = "1"
base64 = "0.22"
crossbeam-channel = "0.5"
env_logger = "*"
itertools = "*"
log = "0.4"
num_cpus = "1"
opencv = "*"
rand = "*"
rayon = "1"
serde = { version = "1", features = ["derive"] }
serde_json = "1"
