[package]
name = "sda_core"
version = "0.1.0"
edition = "2021"
publish = false

[dependencies]
itertools = "*"
jfs = "*"
serde = { version = "*", features = ["derive"] }
