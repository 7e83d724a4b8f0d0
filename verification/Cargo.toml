[package]
name = "lzw"
version = "0.1.0"
edition = "2021"
publish = false

[dependencies]
bytes = "*"
rocket = "0.5"
rocket-multipart-form-data = "*"
