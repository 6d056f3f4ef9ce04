[package]
name = "wilupgu"
version = "0.1.0"
edition = "2021"
publish = false

[dependencies]
bytemuck = { version = "=1.25.2", features = ["extern_crate_alloc"] }
half = { version = "=2.7.1", features = ["bytemuck"] }
wgpu = "=0.19.4"
pollster = "=0.3.0"
futures-intrusive = "=0.5.0"
cudarc = { version = "=0.17.8", features = ["cuda-13000", "f16"] }
