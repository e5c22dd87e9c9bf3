[package]
name = "petrinet-rs"
version = "0.1.0"
edition = "2021"
publish = false

[dependencies]
serde = "=1.0.229"
serde_derive = "=1.0.229"
serde_json = "=1.0.154"
