[package]
name = "nbody_sim"
version = "0.1.0"
edition = "2021"
publish = false

[dependencies]
ultraviolet = { version = "=0.9.2", features = ["f64"] }
