[package]
name = "vecdb"
version = "0.1.0"
edition = "2021"
publish = false

[dependencies]
pco = "=0.4.9"
serde = { version = "=1.0.229", features = ["derive"] }
serde_json = "=1.0.154"
anyhow = "=1.0.104"
rand = "=0.9.5"
