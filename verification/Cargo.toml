[package]
name = "lite_graphics"
version = "0.1.0"
edition = "2021"
publish = false

[dependencies]
nix = { version = "*", features = ["fs", "mman"] }
wayland-client = "*"
wayland-protocols = { version = "*", features = ["client"] }
x11rb = { version = "*", features = ["image"] }
