[package]
name = "aeroscore"
version = "0.1.0"
edition = "2021"
publish = false

[dependencies]
flat_projection = "*"
