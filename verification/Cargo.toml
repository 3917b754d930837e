[package]
name = "turbosloth"
version = "0.1.0"
edition = "2021"
publish = false

[dependencies]
wyhash = "*"
async-trait = "0.1"
anyhow = "1"
tokio = { version = "1", default-features = false, features = ["rt"] }
