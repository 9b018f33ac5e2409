[package]
name = "smolvm_hip"
version = "0.1.0"
edition = "2021"
publish = false

[dependencies]
tar = { version = "0.4", default-features = false }
libloading = "0.8"
vsock = "0.5"
