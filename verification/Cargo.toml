[package]
name = "libflate"
version = "0.1.0"
edition = "2021"
publish = false

[dev-dependencies]
miniz_oxide = "*"
