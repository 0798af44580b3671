[package]
name = "ste_checker"
version = "0.1.0"
edition = "2021"
publish = false

[dependencies]
serde = { version = "1", features = ["derive"] }
serde_json = "1"
miette = { version = "7", features = ["fancy"] }
color-eyre = "0.6"
clap = { version = "4", features = ["derive"] }
