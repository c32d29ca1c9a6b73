[package]
name = "soft_renderer"
version = "0.1.0"
edition = "2021"
publish = false

[dependencies]
rand = "0.8"
rayon = "1"
fastnoise-lite = "1"
nalgebra-glm = "*"
minifb = "*"
