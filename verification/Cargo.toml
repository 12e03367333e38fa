[package]
name = "voronoi"
version = "0.1.0"
edition = "2021"
publish = false

[dependencies]
ordered-float = "*"
rand = "0.4"
