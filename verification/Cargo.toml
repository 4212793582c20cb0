[package]
name = "app_meta"
version = "0.1.0"
edition = "2021"
publish = false

[dependencies]
serde = { version = "=1.0.229", features = ["derive"] }
serde_yaml = "=0.9.34"
tokio = { version = "=1.54.1", features = ["rt"] }

[dev-dependencies]
regex = "=1.13.1"
