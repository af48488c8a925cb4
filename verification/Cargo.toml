[package]
name = "roguelike"
version = "0.1.0"
edition = "2021"
publish = false

[dependencies]
ggez = { version = "0.9", default-features = false }
num-rational = { version = "0.4", default-features = false }
num-traits = "0.2"
rand = "0.8"
rand_pcg = "0.3"
