[package]
name = "minilang"
version = "0.1.0"
edition = "2021"
publish = false

[dependencies]
unescape = "*"
anyhow = "1"
clap = { version = "4", features = ["derive"] }
