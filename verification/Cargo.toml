[package]
name = "laplacianos"
version = "0.1.0"
edition = "2021"
publish = false

[dependencies]
sha2 = "0.10"
pbkdf2 = { version = "0.12", features = ["hmac"] }
subtle = "2"
getrandom = "0.2"
spin = "0.9"
