[package]
name = "ascii_video_renderer"
version = "0.1.0"
edition = "2021"
publish = false

[dependencies]
anyhow = "1"
crossterm = "*"
font8x8 = "*"
fontdue = "*"
libc = "0.2"
serde = { version = "1", features = ["derive"] }
serde_json = "1"
