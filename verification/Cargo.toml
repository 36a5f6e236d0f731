[package]
name = "plonkish_backend"
version = "0.1.0"
edition = "2021"
publish = false

[dependencies]
sha2 = "=0.10.9"
rand = "=0.8.8"
rand_chacha = "=0.3.1"
serde = { version = "=1.0.229", features = ["derive"] }
serde_json = "=1.0.154"
dialoguer = "=0.11.0"
regex = "=1.13.1"
p3-matrix = "=0.8.0"
