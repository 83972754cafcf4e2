[package]
name = "nsys-chrome"
version = "0.1.0"
edition = "2021"
publish = false

[dependencies]
anyhow = "1"
flate2 = "1"
gzp = { version = "*", default-features = false, features = ["deflate_rust"] }
regex = "1"
serde = { version = "1", features = ["derive"] }
serde_json = "1"
