[package]
name = "particle_life"
version = "0.1.0"
edition = "2021"
publish = false

[dependencies]
rand = "=0.9.5"
rayon = "=1.12.0"
macroquad = "=0.4.16"
egui = "=0.31.1"
egui-macroquad = { version = "=0.17.3", default-features = false }
