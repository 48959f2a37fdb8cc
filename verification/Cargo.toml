[package]
name = "sitegen"
version = "0.1.0"
edition = "2021"
publish = false

[dependencies]
minijinja = { version = "2", features = ["loader"] }
