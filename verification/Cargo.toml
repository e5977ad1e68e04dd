[package]
name = "palette"
version = "0.1.0"
edition = "2021"
publish = false

[dependencies]
image = "*"
reqwest = { version = "*", default-features = false }
tokio = { version = "*", features = ["rt"] }
