[package]
name = "particle_life_3d"
version = "0.1.0"
edition = "2021"
publish = false

[dependencies]
cgmath = "0.18"
eframe = { version = "0.21", default-features = false, features = ["default_fonts", "wgpu"] }
encase = { version = "0.5", features = ["cgmath"] }
rand = "0.8"
rayon = "1"
