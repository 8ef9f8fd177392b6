[package]
name = "asc_raster"
version = "0.1.0"
edition = "2021"
publish = false

[dependencies]
anyhow = "1"
image = { version = "0.25", default-features = false, features = ["png"] }
show-image = "0.14"
walkdir = "2"
