[package]
name = "tanukioke"
version = "0.1.0"
edition = "2021"
publish = false

[dependencies]
anyhow = "*"
rodio = "*"
serde = { version = "*", features = ["derive"] }
toml = "*"
walkdir = "*"
