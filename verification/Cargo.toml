[package]
name = "filaro"
version = "0.1.0"
edition = "2021"
publish = false

[dependencies]
serde = { version = "=1.0.229", features = ["derive"] }
serde_json = "=1.0.154"
sysinfo = { version = "=0.37.2", default-features = false, features = ["system"] }
walkdir = "=2.5.0"
