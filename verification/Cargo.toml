[package]
name = "tokio-uring"
version = "0.4.0"
edition = "2021"
publish = false

[dependencies]
io-uring = "0.6"
libc = "0.2"
slab = "0.4"
socket2 = { version = "0.4", features = ["all"] }
tokio = { version = "1", default-features = false }
