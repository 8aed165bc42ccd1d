[package]
name = "bumper_robot"
version = "0.1.0"
edition = "2021"
publish = false

[dependencies]
bytemuck = { version = "1", features = ["derive"] }
cgmath = "0.18"
futures = "0.3"
image = { version = "0.23", default-features = false, features = ["png"] }
nalgebra = "0.29"
once_cell = "1"
scrap = "0.5"
wgpu = "0.9"
winapi = { version = "0.3", features = ["windef", "winuser"] }
winit = "0.25"
