[package]
name = "bpm"
version = "0.1.2"
edition = "2021"
publish = false

[dependencies]
serde = { version = "*", features = ["derive"] }
serde_json = "*"
toml = "*"
calcbits = "*"
