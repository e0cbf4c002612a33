[package]
name = "numa_gpu"
version = "0.1.0"
edition = "2021"
publish = false

[dependencies]
csv = "*"
serde = { version = "*", features = ["derive"] }
hostname = "*"
once_cell = "*"
rustacuda = "*"
cuda-sys = "*"
nvml-wrapper = "*"
