[package]
name = "diverge"
version = "0.1.0"
edition = "2021"
publish = false

[dependencies]
walkdir = "2"
dirs = "*"
serde = { version = "1", features = ["derive"] }
serde_yaml = "0.9"
