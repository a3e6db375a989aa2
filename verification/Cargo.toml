[package]
name = "mold-generator"
version = "0.1.0"
edition = "2021"
publish = false

[dependencies]
zip = { version = "*", default-features = false, features = ["deflate"] }
manifold-rust = "*"
stl_io = "*"
