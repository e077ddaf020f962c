[package]
name = "annals"
version = "0.1.0"
edition = "2021"
publish = false

[dependencies]
rand = "0.7"
regex = "1"
titlecase = "*"
serde = { version = "1", features = ["derive"] }
serde_yaml = "0.8"
