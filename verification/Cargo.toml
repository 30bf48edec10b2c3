[package]
name = "oxython"
version = "0.1.0"
edition = "2021"
publish = false

[dependencies]
logos = "0.14"
libc = "0.2"
