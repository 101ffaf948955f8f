[package]
name = "copycat"
version = "0.1.0"
edition = "2021"
publish = false

[dependencies]
ignore = "*"
anyhow = "*"
clap = { version = "*", features = ["derive"] }
copypasta = "*"

[dev-dependencies]
tempfile = "*"
