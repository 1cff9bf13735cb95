[package]
name = "frostify"
version = "0.1.0"
edition = "2021"
publish = false

[dependencies]
re_mp4 = "*"
openh264 = "*"
image = { version = "0.25", default-features = false, features = ["png"] }
tokio = { version = "1", features = ["sync"] }
