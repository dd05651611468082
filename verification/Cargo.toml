[package]
name = "bsp"
version = "0.1.0"
edition = "2021"
publish = false

[dependencies]
obj-rs = "*"
stl_io = "=0.11.0"
