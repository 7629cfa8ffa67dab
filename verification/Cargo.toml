[package]
name = "pose2d"
version = "0.1.0"
edition = "2021"
publish = false

[dependencies]
image = { version = "*", default-features = false, features = ["png"] }
serde = { version = "*", features = ["derive"] }
serde_json = "*"
