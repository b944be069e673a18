[package]
name = "xrpl_api"
version = "0.1.0"
edition = "2021"
publish = false

[dependencies]
serde = { version = "*", features = ["derive"] }
serde_json = "*"
clap = "*"
tracing-subscriber = "*"
