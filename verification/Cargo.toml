[package]
name = "languatage"
version = "0.1.0"
edition = "2021"
publish = false

[dependencies]
clap = { version = "*", features = ["derive"] }
num-format = "*"
prettytable-rs = "*"
serde = { version = "*", features = ["derive"] }
serde_yaml = "*"
