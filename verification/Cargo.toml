[package]
name = "rust_raytracer"
version = "0.1.0"
edition = "2021"
publish = false

[dependencies]
rand = "0.8"
rayon = "1"
stl_io = "0.8"
image = { version = "0.25", default-features = false, features = ["png"] }
winit = { version = "0.30", default-features = false, features = ["rwh_06", "x11"] }
softbuffer = { version = "0.4", default-features = false, features = ["x11", "x11-dlopen"] }
