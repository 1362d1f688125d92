[package]
name = "dplane"
version = "0.1.0"
edition = "2021"
publish = false

[dependencies]
serde = { version = "1", features = ["derive"] }
serde_json = "1"
yaml-rust = "0.4"
getopts = "0.2"
