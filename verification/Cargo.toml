[package]
name = "learn_wgpu"
version = "0.1.0"
edition = "2021"
publish = false

[dependencies]
rand = "0.8"
wgpu = "0.16"
winit = "0.28"
pollster = "0.3"
bytemuck = { version = "1", features = ["derive"] }
env_logger = "0.10"
log = "0.4"
spin_sleep = "1"
cfg-if = "1"
