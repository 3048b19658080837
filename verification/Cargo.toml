[package]
name = "treee"
version = "0.1.0"
edition = "2021"
publish = false

[dependencies]
bincode = "1"
clap = { version = "4", features = ["derive"] }
las = "*"
serde = { version = "1", features = ["derive"] }
