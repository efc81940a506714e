[package]
name = "zinc"
version = "0.1.0"
edition = "2021"
publish = false

[dependencies]
failure = "0.1.8"
