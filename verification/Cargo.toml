[package]
name = "renderer"
version = "0.1.0"
edition = "2021"
publish = false

[dependencies]
glam = "0.24"
rand = "0.8"
rayon = "1"
ctrlc = "3"
obj = "0.10"
image = { version = "0.24", default-features = false, features = ["png", "jpeg"] }
