[package]
name = "raytracer"
version = "0.1.0"
edition = "2021"
publish = false

[dependencies]
rand = "0.7"
perlin_noise = "*"
scoped_threadpool = "0.1"
