[package]
name = "revisor"
version = "0.1.0"
edition = "2021"
publish = false

[dependencies]
slab = "0.4"
libc = "0.2"
getopts = "0.2"
once_cell = "1"
