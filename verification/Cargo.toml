[package]
name = "aipo"
version = "0.1.0"
edition = "2021"
publish = false

[dependencies]
serde = { version = "=1.0.229", features = ["derive"] }
serde_json = "=1.0.154"
sha2 = "=0.10.9"
toml = "=0.8.23"
unicode-normalization = "0.1"
ureq = "3"
