[package]
name = "ferrite"
version = "0.1.0"
edition = "2021"
publish = false

[dependencies]
url = "=2.5.8"
blake3 = "=1.8.7"
serde = { version = "1", features = ["derive"] }
serde_json = "1"
