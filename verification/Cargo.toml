[package]
name = "sitegen"
version = "0.1.0"
edition = "2021"
publish = false

[dependencies]
serde_yaml = "0.9"
pulldown-cmark = "*"
chrono = "0.4"
