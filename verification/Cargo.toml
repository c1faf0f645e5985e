[package]
name = "raytracer"
version = "0.1.0"
edition = "2021"
publish = false

[dependencies]
anyhow = "1"
clap = { version = "4", features = ["derive"] }
image = { version = "0.24", default-features = false, features = ["png", "jpeg"] }
indicatif = { version = "0.17", features = ["rayon"] }
rand = "0.8"
rand_core = "0.6"
rand_distr = "0.4"
rayon = "1"
ron = "0.8"
serde = { version = "1", features = ["derive"] }
