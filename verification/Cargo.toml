[package]
name = "jackal_notifications"
version = "0.1.0"
edition = "2021"
publish = false

[dependencies]
base64 = "=0.13.1"
secret-toolkit-crypto = "=0.10.3"
serde = { version = "1", features = ["derive"] }
schemars = "=1.2.2"
