[package]
name = "client"
version = "0.1.0"
edition = "2021"
publish = false

[dependencies]
bincode = "=1.3.3"
bytemuck = { version = "1", features = ["derive"] }
cgmath = "0.18"
num_cpus = "1"
image = { version = "0.25", default-features = false, features = ["png"] }
