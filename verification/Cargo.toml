[package]
name = "ardent"
version = "0.1.0"
edition = "2021"
publish = false

[dependencies]
lyon = "1"
pollster = "0.4"
wgpu = "25"
winit = "0.30"
