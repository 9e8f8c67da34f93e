[package]
name = "witcher"
version = "0.1.0"
edition = "2021"
publish = false

[dependencies]
anyhow = "=1.0.104"
calloop = "=0.14.5"
calloop-wayland-source = "=0.4.1"
evdev = "=0.13.2"
freedesktop-icons = "=0.4.0"
image = { version = "=0.25.10", default-features = false, features = ["png"] }
niri-ipc = "=26.4.0"
resvg = { version = "=0.48.1", default-features = false }
serde = { version = "=1.0.229", features = ["derive"] }
serde_json = "=1.0.151"
smithay-client-toolkit = "=0.21.1"
tiny-skia = "=0.12.0"
wayland-client = "=0.31.15"
