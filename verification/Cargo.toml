[package]
name = "pathtracer"
version = "0.1.0"
edition = "2021"
publish = false

[dependencies]
bytemuck = { version = "=1.25.2", features = ["derive"] }
ddsfile = "=0.5.2"
glam = { version = "=0.34.1", features = ["bytemuck"] }
gltf = "=1.4.1"
log = "0.4"
mikktspace = "=0.3.0"
pollster = "0.3"
pretty_env_logger = "0.5"
sobol_burley = "=0.5.0"
wgpu = "=0.20.1"
winit = "=0.30.13"
