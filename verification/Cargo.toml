[package]
name = "minecrust"
version = "0.1.0"
edition = "2021"
publish = false

[dependencies]
bytemuck = { version = "1", features = ["derive"] }
cgmath = "0.17"
collision = "0.20"
env_logger = "0.9"
futures = "0.3"
glam = "0.22"
itertools = "0.10"
log = "0.4"
palette = "0.6"
wgpu = "0.14"
winit = "0.27"
