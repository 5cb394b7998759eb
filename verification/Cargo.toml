[package]
name = "vello"
version = "0.1.0"
edition = "2021"
publish = false

[dependencies]
peniko = "0.4"
bytemuck = { version = "1", features = ["derive"] }
log = "0.4"
static_assertions = "1"
wgpu = "24"
