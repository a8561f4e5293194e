[package]
name = "voxels"
version = "0.1.0"
edition = "2021"
publish = false

[dependencies]
bytemuck = "1"
egui = "0.16"
egui_wgpu_backend = "0.16"
egui_winit_platform = "0.13"
epi = "0.16"
futures-lite = "1"
glam = "0.20"
naga = { version = "0.8", features = ["wgsl-in"] }
notify = "4"
rapier3d = "0.11"
rayon = "1.5"
simdnoise = "3.1"
tracing = "0.1"
tracing-subscriber = "0.3"
wgpu = "0.12"
winit = "0.26"

[dev-dependencies]
regex = "1"
