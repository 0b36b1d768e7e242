[package]
name = "base64_turbo"
version = "0.1.0"
edition = "2021"
publish = false

[dependencies]
rayon = "1"

[dev-dependencies]
base64 = "0.22"
