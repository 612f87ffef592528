[package]
name = "sightgfx"
version = "0.1.0"
edition = "2021"
publish = false

[dependencies]
libm = "0.2"
minifb = "*"
rusttype = "0.9"
