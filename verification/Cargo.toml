[package]
name = "asch"
version = "0.1.0"
edition = "2021"
publish = false

[dependencies]
rust-ini = "*"
serde = { version = "*", features = ["derive"] }
serde_yaml = "*"
anyhow = "*"
rfd = "*"
