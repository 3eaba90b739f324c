[package]
name = "molt"
version = "0.1.0"
edition = "2021"
publish = false

[dependencies]
bootloader_api = "0.11"
spin = "0.9"
x86_64 = { version = "0.15", default-features = false, features = ["instructions"] }
