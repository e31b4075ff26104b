[package]
name = "terrain_forge"
version = "0.4.0"
edition = "2021"
publish = false

[dependencies]
rand = "0.8"
rand_chacha = "0.3"
serde_json = "1"
image = { version = "0.24", default-features = false, features = ["png"] }
