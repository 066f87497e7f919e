[package]
name = "rcard_host"
version = "0.1.0"
edition = "2021"
publish = false

[dependencies]
uuid = "=1.29.0"
cobs = "=0.5.1"
serde = { version = "=1.0.229", features = ["derive"] }
serde_json = "=1.0.154"
dirs = "=7.0.0"
terminal_size = "=0.4.4"
zip = { version = "2", default-features = false, features = ["deflate"] }
