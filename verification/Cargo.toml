[package]
name = "gemma_wgpu"
version = "0.1.0"
edition = "2021"
publish = false

[dependencies]
bytemuck = "1"
clap = { version = "4", features = ["derive"] }
fancy-regex = "*"
memmap2 = "0.9"
pollster = "*"
serde = { version = "1", features = ["derive"] }
serde_json = "1"
thiserror = "*"
ureq = "3"
wgpu = "30"
