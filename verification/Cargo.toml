[package]
name = "squirrel_json"
version = "0.1.0"
edition = "2021"
publish = false

[dependencies]
serde_json = "1"
version_check = "0.9"

[dev-dependencies]
rand = "0.8"
