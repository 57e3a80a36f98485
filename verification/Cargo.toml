[package]
name = "xrc"
version = "0.1.0"
edition = "2021"
publish = false

[dependencies]
xor_cryptor = "*"
hmac = "*"
sha2 = "*"
clap = "*"
rpassword = "*"
indicatif = "*"
path-absolutize = "*"
