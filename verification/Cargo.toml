[package]
name = "crypto_pals"
version = "0.1.0"
edition = "2021"
publish = false

[dependencies]
aes = "*"
rand = "*"
base64 = "*"
