[package]
name = "lumino-gpu-synth"
version = "0.1.0"
edition = "2021"
publish = false

[dependencies]
lumino-midly = "*"
wgpu = "*"
pollster = "*"
cpal = "*"
bytemuck = { version = "*", features = ["derive"] }
rayon = "*"
