[package]
name = "artifact"
version = "0.1.0"
edition = "2021"
publish = false

[dependencies]
serde = { version = "=1.0.229", features = ["derive"] }
serde_json = "=1.0.154"
serde_yaml = "=0.7.5"
toml = "=0.5.11"
siphasher = "=1.0.4"
strfmt = "=0.2.6"
petgraph = "=0.8.3"
base64 = "=0.13.1"
