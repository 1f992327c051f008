[package]
name = "i2m_rs"
version = "0.1.0"
edition = "2021"
publish = false

[dependencies]
midly = "0.5"
rand = "0.8"
resvg = "0.45"
tiny-skia = "0.11"
thiserror = "2"
image = { version = "0.25", default-features = false, features = ["png", "jpeg", "bmp", "gif", "webp"] }
