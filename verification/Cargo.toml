[package]
name = "art_junk"
version = "0.1.0"
edition = "2021"
publish = false

[dependencies]
anyhow = "=1.0.104"
arc-swap = "=1.9.3"
bytemuck = { version = "=1.25.2", features = ["derive"] }
crossbeam-channel = "=0.5.17"
egui = "=0.29.1"
egui-wgpu = "=0.29.1"
egui-winit = { version = "=0.29.1", default-features = false, features = ["x11"] }
env_logger = { version = "=0.11.11", default-features = false }
kurbo = "=0.11.3"
log = "=0.4.35"
palette = "=0.7.7"
palette-gamut-mapping = "=0.1.1"
serde = { version = "=1.0.229", features = ["derive"] }
strum = "=0.26.3"
strum_macros = "=0.26.4"
thiserror = "=1.0.69"
vello = "=0.3.0"
wgpu = "=22.1.0"
winit = { version = "=0.30.13", default-features = false, features = ["x11", "rwh_06"] }

[dev-dependencies]
ciborium = "=0.2.2"
