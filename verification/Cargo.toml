[package]
name = "raytracer"
version = "0.1.0"
edition = "2021"
publish = false

[dependencies]
miniquad = "0.3"
png = "0.16"
