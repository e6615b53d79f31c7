[package]
name = "fumengen"
version = "0.1.0"
edition = "2021"
publish = false

[dependencies]
serde_json = "1"
rand = "0.8"
clap = { version = "4", features = ["derive"] }
