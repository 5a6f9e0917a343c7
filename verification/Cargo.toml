[package]
name = "rustycraft"
version = "0.1.0"
edition = "2021"
publish = false

[dependencies]
bytemuck = { version = "1", features = ["derive"] }
env_logger = { version = "0.10", default-features = false }
glam = "0.24"
image = { version = "0.24", default-features = false, features = ["png"] }
lazy_static = "1"
pollster = "0.3"
rand = "0.8"
tobj = { version = "4", default-features = false }
wgpu = { version = "0.19", default-features = false, features = ["wgsl"] }
