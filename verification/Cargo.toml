[package]
name = "zc-ring-x1"
version = "0.1.0"
edition = "2021"
publish = false

[dependencies]
libc = "0.2"
zerocopy = { version = "0.8", features = ["derive"] }
