[package]
name = "editor_host"
version = "0.1.0"
edition = "2021"
publish = false

[dependencies]
rayon = "=1.12.0"
regex = "=1.13.1"
serde = { version = "=1.0.229", features = ["derive"] }
serde_json = "=1.0.154"
