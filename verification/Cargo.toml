[package]
name = "bluefox"
version = "0.1.0"
edition = "2021"
publish = false

[dependencies]
libc = "*"
mlua = { version = "*", features = ["lua54", "vendored"] }
