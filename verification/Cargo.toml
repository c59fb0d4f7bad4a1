[package]
name = "anymap_serde"
version = "0.1.0"
edition = "2021"
publish = false

[dependencies]
serde = { version = "1", features = ["derive"] }
serde-value = "0.7"

[dev-dependencies]
serde_json = "1"
