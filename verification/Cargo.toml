[package]
name = "voronoi_geology"
version = "0.1.0"
edition = "2021"
publish = false

[dependencies]
glam = "*"
image = { version = "0.25", default-features = false, features = ["png"] }
noise = "0.9"
rand = "0.10"
rand_pcg = "0.10"
rayon = "1"
