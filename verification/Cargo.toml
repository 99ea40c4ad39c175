[package]
name = "takuzu"
version = "0.1.0"
edition = "2021"
publish = false

[dependencies]
rand = "0.8"
image = { version = "*", default-features = false, features = ["png", "jpeg"] }
color-thief = "*"
sciter-rs = "*"
