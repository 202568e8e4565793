[package]
name = "visual_diff"
version = "0.1.0"
edition = "2021"
publish = false

[dependencies]
image = { version = "0.25", default-features = false, features = ["png", "jpeg", "bmp", "gif", "webp"] }
serde_json = "1"
similar = "2"
tokio = { version = "1", features = ["rt", "time"] }
