[package]
name = "advanced_constrained_secret_santa"
version = "0.1.0"
edition = "2021"
publish = false

[dependencies]
rand = "0.9"
base64 = "0.22"
json5 = "0.4"
serde = { version = "1", features = ["derive"] }
serde_json = "1"
