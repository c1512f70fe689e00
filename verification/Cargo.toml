[package]
name = "refocus"
version = "0.1.0"
edition = "2021"
publish = false

[dependencies]
clap = { version = "*", features = ["derive"] }
directories = "*"
serde = { version = "*", features = ["derive"] }
serde_json = "*"
