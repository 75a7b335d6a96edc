[package]
name = "gtr"
version = "0.1.0"
edition = "2021"
publish = false

[dependencies]
regex = "1"
clap = "4"
serde = { version = "1", features = ["derive"] }
toml = "0.8"
