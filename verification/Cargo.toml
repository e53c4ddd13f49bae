[package]
name = "raytracer"
version = "0.1.0"
edition = "2021"
publish = false

[dependencies]
nalgebra = "=0.35.0"
rand = "=0.10.3"
image = { version = "=0.25.10", default-features = false, features = ["pnm"] }
simple_parallel = "=0.2.1"
