[package]
name = "did_toolkit"
version = "0.1.0"
edition = "2021"
publish = false

[dependencies]
anyhow = "*"
ciborium = "*"
clap = { version = "*", features = ["derive"] }
multibase = "*"
rand = "*"
serde = { version = "*", features = ["derive"] }
serde_json = "*"
url = "*"
