[package]
name = "flee_ai"
version = "0.1.0"
edition = "2021"
publish = false

[dependencies]
rand = "0.9"
serde_json = "1"
