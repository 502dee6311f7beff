[package]
name = "improc"
version = "0.1.0"
edition = "2021"
publish = false

[dependencies]
anyhow = "1"
bitvec = "1"
cgmath = "0.18"
env_logger = { version = "0.9", default-features = false }
image = { version = "0.23", default-features = false }
nalgebra = "0.31"
num-traits = "0.2"
rand = "0.8"
rand_distr = "0.4"
serde = { version = "1", features = ["derive"] }
serde_json = "1"
