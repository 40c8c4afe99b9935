[package]
name = "renderer"
version = "0.1.0"
edition = "2021"
publish = false

[dependencies]
fastrand = "2"
image = { version = "0.25", default-features = false, features = ["png", "jpeg"] }
rayon = "1"
tobj = "4"
