[package]
name = "symengine"
version = "0.2.0"
edition = "2021"
publish = false

[dependencies]
symengine-sys = "*"
serde = { version = "1", features = ["derive"] }

[dev-dependencies]
serde_json = "1"
bincode = "1"
serde_yaml = "0.9"
