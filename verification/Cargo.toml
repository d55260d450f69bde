[package]
name = "ray_tracer_challenge"
version = "0.1.0"
edition = "2021"
publish = false

[dependencies]
by_address = "1"
mimalloc = { version = "*", default-features = false }
