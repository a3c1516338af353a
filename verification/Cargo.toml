[package]
name = "dungeon"
version = "0.1.0"
edition = "2021"
publish = false

[dependencies]
array2d = "0.2"
bevy = { version = "0.5", default-features = false, features = ["render"] }
rand = "0.8"
