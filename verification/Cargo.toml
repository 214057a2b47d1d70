[package]
name = "inspace"
version = "0.1.0"
edition = "2021"
publish = false

[dependencies]
fs4 = "*"
libc = "0.2"
memmap2 = "0.9"
page_size = "0.6"
rmp-serde = "1"
serde = { version = "1", features = ["derive"] }
sha3 = "0.10"
