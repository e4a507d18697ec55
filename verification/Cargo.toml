[package]
name = "dupfinder"
version = "0.1.0"
edition = "2021"
publish = false

[dependencies]
chrono = "*"
clap = { version = "*", features = ["derive"] }
colored = "*"
globset = "*"
md5 = "*"
regex = "*"
same-file = "*"
serde = { version = "*", features = ["derive"] }
serde_json = "*"
walkdir = "*"
