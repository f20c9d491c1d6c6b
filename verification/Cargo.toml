[package]
name = "hegel"
version = "0.1.0"
edition = "2021"
publish = false

[dependencies]
libm = "*"
once_cell = { version = "*", features = ["race", "alloc"] }
rand = "0.10"
