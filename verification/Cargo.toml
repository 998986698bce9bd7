[package]
name = "pixel_billboard"
version = "0.1.0"
edition = "2021"
publish = false

[dependencies]
parity-scale-codec = { version = "=3.7.5", default-features = false, features = ["std"] }
sp-std = { version = "=14.0.0", default-features = false, features = ["std"] }
