[package]
name = "loom"
version = "0.1.0"
edition = "2021"
publish = false

[dependencies]
getrandom = "=0.3.4"
thiserror = "=2.0.21"
serde = { version = "1", features = ["derive"] }
serde_json = "1"

[dev-dependencies]
hex = "=0.4.3"
