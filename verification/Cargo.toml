[package]
name = "wfc"
version = "0.1.0"
edition = "2021"
publish = false

[dependencies]
clap = { version = "4", features = ["derive"] }
colored = "*"
rand = "0.9"
serde = { version = "1", features = ["derive"] }
serde_yaml = "0.9"
