[package]
name = "grfpatch"
version = "0.1.0"
edition = "2021"
publish = false

[dependencies]
flate2 = "1"
aes-gcm = "0.10"
rand = "0.8"
anyhow = "1"
log = "0.4"
serde = { version = "1", features = ["derive"] }
serde_json = "1"
serde_yaml = "0.9"
walkdir = "2"
