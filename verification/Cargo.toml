[package]
name = "rust_sss"
version = "0.1.0"
edition = "2021"
publish = false

[dependencies]
aes-gcm = "*"
aes = "*"
pbkdf2 = "*"
sha2 = "*"
hex = "*"
rand = "*"
dialoguer = "*"
