[package]
name = "logic_voxels"
version = "0.1.0"
edition = "2021"
publish = false

[dependencies]
lz4 = "=1.28.1"
noise = { version = "=0.7.0", default-features = false }
bevy = { version = "=0.8.1", default-features = false, features = ["bevy_asset", "bevy_winit", "render", "png", "x11"] }
bevy_flycam = "=0.8.1"
bevy-inspector-egui = { version = "=0.12.1", default-features = false }
bevy_rapier3d = "=0.16.2"
bevy_renet = "=0.0.5"
futures-lite = "=1.13.0"
local-ip-address = "=0.4.9"
renet_visualizer = "=0.0.2"

[dev-dependencies]
bincode = "=1.3.3"
