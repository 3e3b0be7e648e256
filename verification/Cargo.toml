[package]
name = "smep"
version = "0.1.0"
edition = "2021"
publish = false

[dependencies]
markdown = "=1.0.0"
serde = { version = "1", features = ["derive"] }
toml = "0.9"
dirs = "*"
futures = "0.3"
