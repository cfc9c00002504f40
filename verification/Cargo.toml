[package]
name = "neat"
version = "0.1.0"
edition = "2021"
publish = false

[dependencies]
rand = "0.7"
sdl2 = { version = "0.34", features = ["gfx"] }
