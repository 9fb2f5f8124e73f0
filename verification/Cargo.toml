[package]
name = "sixp"
version = "0.1.0"
edition = "2021"
publish = false

[dependencies]
accounting = "*"
bincode = "1"
chrono = "0.4"
clap = { version = "3", features = ["derive"] }
dirs = "*"
itertools = "0.10"
pad = "*"
serde = { version = "1", features = ["derive"] }
ulid = "*"
