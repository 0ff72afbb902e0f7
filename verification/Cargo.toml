[package]
name = "eidos"
version = "0.1.0"
edition = "2021"
publish = false

[dependencies]
encoding_rs = "=0.8.44"
libc = "=0.2.191"
serde = { version = "1", features = ["derive"] }
serde_json = "1"
