[package]
name = "ditto"
version = "0.1.0"
edition = "2021"
publish = false

[dependencies]
rand = "0.8"
base64 = "0.13"
rustc-serialize = "0.3"
serde = { version = "1", features = ["derive"] }
serde_json = "1"
