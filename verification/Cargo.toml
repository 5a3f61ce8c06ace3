[package]
name = "scc-lcd-daemon"
version = "1.9.0"
edition = "2021"
publish = false

[dependencies]
libc = "0.2"
