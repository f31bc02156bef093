[package]
name = "launcher"
version = "0.1.0"
edition = "2021"
publish = false

[dependencies]
cairo-rs = { version = "=0.22.9", features = ["png"] }
dirs = "=7.0.0"
freedesktop-desktop-entry = "0.4"
image = { version = "=0.25.10", default-features = false, features = ["bmp", "dds", "exr", "ff", "gif", "hdr", "ico", "jpeg", "png", "pnm", "qoi", "tga", "tiff", "webp"] }
librsvg = "=2.63.4"
serde = { version = "1", features = ["derive"] }
toml = "0.8"
wayland-client = "0.31"
x11rb = "0.13"
