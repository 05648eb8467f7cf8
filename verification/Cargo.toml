[package]
name = "bybit"
version = "0.1.0"
edition = "2021"
publish = false

[dependencies]
hex = "0.4"
hmac = "0.12"
reqwest = "0.12"
serde_json = "1"
sha2 = "0.10"
url = "2"
