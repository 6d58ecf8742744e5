[package]
name = "cbor_cli"
version = "0.1.0"
edition = "2021"
publish = false

[dependencies]
serde_cbor = "=0.11.2"
serde_json = "=1.0.151"
serde_yaml = "=0.9.34"
toml = { version = "=1.1.7", features = ["preserve_order"] }
clap = { version = "=4.6.7", features = ["derive"] }
