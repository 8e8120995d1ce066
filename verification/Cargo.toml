[package]
name = "lachesis"
version = "0.1.0"
edition = "2021"
publish = false

[dependencies]
ring = "*"
rand = "*"
bincode = "1"
serde = { version = "1", features = ["derive"] }
env_logger = "*"
untrusted = "*"
