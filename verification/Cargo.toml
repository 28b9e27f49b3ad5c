[package]
name = "chord_tool"
version = "0.1.0"
edition = "2021"
publish = false

[dependencies]
chrono = "0.4"
cpal = "0.15"
serde = { version = "1", features = ["derive"] }
toml = "0.8"
