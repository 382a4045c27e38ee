[package]
name = "reverse_geocoder"
version = "0.1.0"
edition = "2021"
publish = false

[dependencies]
kiddo = "=4.2.1"
csv = "=1.4.0"
fixed = "1"
serde = { version = "=1.0.229", features = ["derive"] }
