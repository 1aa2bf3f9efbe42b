[package]
name = "uni"
version = "0.1.0"
edition = "2021"
publish = false

[dependencies]
accesskit = "*"
bytemuck = { version = "1", features = ["derive"] }
glyphon = "0.6"
lyon = "1"
pollster = "*"
serde = { version = "1", features = ["derive"] }
serde_json = "1"
taffy = "*"
wgpu = { version = "22", default-features = false, features = ["wgsl"] }
winit = { version = "0.30", default-features = false, features = ["rwh_06", "x11"] }
