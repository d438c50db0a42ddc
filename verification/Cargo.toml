[package]
name = "mazes"
version = "0.1.0"
edition = "2021"
publish = false

[dependencies]
priority-queue = "*"
rand = "0.8"
anyhow = "*"
clap = { version = "*", features = ["derive"] }
promptly = "*"
image = { version = "*", default-features = false, features = ["png"] }
