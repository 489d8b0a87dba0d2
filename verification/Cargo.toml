[package]
name = "chrome_extension_cleaner"
version = "0.2.0"
edition = "2021"
publish = false

[dependencies]
base64 = "0.22"
rand = "0.8"
serde = { version = "1", features = ["derive"] }
serde_json = "1"
