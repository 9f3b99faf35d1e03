[package]
name = "enigmap"
version = "0.1.0"
edition = "2021"
publish = false

[dependencies]
rand = "=0.7.3"
noise = { version = "=0.6.0", default-features = false }
glium = "0.24"
image = "0.22"
toml = "0.5"
