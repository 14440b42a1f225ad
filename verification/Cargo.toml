[package]
name = "tile_atlas"
version = "0.1.0"
edition = "2021"
publish = false

[dependencies]
texture_packer = "*"
image = "*"
rust-crypto = "*"
glium = "*"
toml = "*"
glob = "*"
