[package]
name = "winnow_core"
version = "0.1.0"
edition = "2021"
publish = false

[dependencies]
csv = "1"
toml = "0.8"
serde = { version = "1", features = ["derive"] }
walkdir = "2"
clap = { version = "4", features = ["derive"] }
