[package]
name = "cleanplate"
version = "0.1.0"
edition = "2021"
publish = false

[dependencies]
minijinja = { version = "*", features = ["unstable_machinery"] }
serde_json = "*"
clap = { version = "*", features = ["derive"] }
