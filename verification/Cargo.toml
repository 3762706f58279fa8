[package]
name = "path_tracer"
version = "0.1.0"
edition = "2021"
publish = false

[dependencies]
glam = { version = "=0.24.2", features = ["rand"] }
rand = "=0.8.8"
