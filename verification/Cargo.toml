[package]
name = "kricon"
version = "0.1.0"
edition = "2021"
publish = false

[dependencies]
eframe = { version = "*", default-features = false, features = ["default_fonts", "glow", "x11"] }
image = { version = "*", default-features = false, features = ["png", "jpeg", "gif", "bmp", "webp"] }
