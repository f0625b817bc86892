[package]
name = "jsync"
version = "0.1.0"
edition = "2021"
publish = false

[dependencies]
anyhow = "1"
blake3 = "1"
ciborium = "0.2"
serde_json = "1"
