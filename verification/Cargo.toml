[package]
name = "squircle-icon-rs"
version = "0.1.0"
edition = "2021"
publish = false

[dependencies]
tiny-skia = "=0.12.0"
png = "=0.18.1"
resvg = "=0.49.0"
image = { version = "=0.25.10", default-features = false, features = ["png", "jpeg", "webp"] }
