[package]
name = "keywhisker"
version = "0.1.0"
edition = "2021"
publish = false

[dependencies]
rand = "=0.8.8"
anyhow = "=1.0.104"
clap = { version = "=4.5.61", features = ["derive"] }
serde = { version = "1", features = ["derive"] }
serde_json = "=1.0.151"
