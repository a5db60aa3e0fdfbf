[package]
name = "custom_glyphs"
version = "0.1.0"
edition = "2021"
publish = false

[dependencies]
raqote = { version = "0.8", default-features = false }
