[package]
name = "looker"
version = "0.1.0"
edition = "2021"
publish = false

[dependencies]
anyhow = "1"
chrono = "0.4"
clap = { version = "4", features = ["derive"] }
colored = "*"
indicatif = "*"
inquire = "*"
walkdir = "2"

[dev-dependencies]
regex = "1"
