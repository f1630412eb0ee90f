[package]
name = "integrity_checker"
version = "0.2.1"
edition = "2021"
publish = false

[dependencies]
base64 = "0.13"
blake2 = "0.10"
clap = { version = "3", features = ["cargo"] }
digest = "0.10"
flate2 = "1"
ignore = "0.4"
serde = { version = "1", features = ["derive"] }
serde_json = "1"
sha2 = "0.10"
time = "0.3"
