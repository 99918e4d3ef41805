[package]
name = "pixstage"
version = "0.1.0"
edition = "2021"
publish = false

[dependencies]
bytemuck = "1"
pollster = "0.4"
raw-window-handle = "0.6"
thiserror = "2"
wgpu = "26"
