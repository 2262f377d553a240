[package]
name = "puzzle"
version = "0.1.0"
edition = "2021"
publish = false

[dependencies]
image = { version = "0.25", default-features = false, features = ["png", "jpeg", "gif", "bmp"] }
colors-transform = "0.2"
lab = "0.11"
