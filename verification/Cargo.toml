[package]
name = "obby_records"
version = "0.1.0"
edition = "2021"
publish = false

[dependencies]
arboard = { version = "=3.7.0", default-features = false }
eframe = { version = "0.22", default-features = false, features = ["glow"] }
serde = { version = "=1.0.229", features = ["derive"] }
serde_json = "=1.0.154"
tiny_http = { version = "=0.12.0", default-features = false }
