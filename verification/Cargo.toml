[package]
name = "sim_core"
version = "0.1.0"
edition = "2021"
publish = false

[dependencies]
rapier2d = "0.22"
glam = "0.27"
