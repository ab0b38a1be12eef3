[package]
name = "dwm"
version = "0.1.0"
edition = "2021"
publish = false

[dependencies]
x11rb = { version = "*", features = ["xinerama"] }
libc = "*"
fontdue = "*"
wayland-client = "*"
smithay-client-toolkit = "*"
