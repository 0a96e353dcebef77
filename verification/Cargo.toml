[package]
name = "content_signature"
version = "0.1.0"
edition = "2021"
publish = false

[dependencies]
base64 = "=0.13.1"
serde_json = "=1.0.151"

[dev-dependencies]
canonical_json = "=0.7.0"
