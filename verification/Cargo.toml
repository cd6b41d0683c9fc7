[package]
name = "graphrust"
version = "0.1.0"
edition = "2021"
publish = false

[dependencies]
ahash = "=0.8.12"
bit-set = "=0.8.0"
rand = "=0.8.8"
anyhow = "=1.0.104"
serde = { version = "=1.0.229", features = ["derive"] }
serde_json = "=1.0.154"
reqwest = { version = "=0.12.28", default-features = false, features = ["blocking"] }
colourado-iter = "=1.2.0"

[dev-dependencies]
speedy = "=0.8.7"
