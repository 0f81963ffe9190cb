[package]
name = "tiff"
version = "0.1.0"
edition = "2021"
publish = false

[dependencies]
flate2 = "1.0"
weezl = "0.1"

[dev-dependencies]
bytemuck = "1"
fastrand = "2"
