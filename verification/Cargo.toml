[package]
name = "metaballs"
version = "0.1.0"
edition = "2021"
publish = false

[dependencies]
softbuffer = "0.2"
winit = "0.28"
