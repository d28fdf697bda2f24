[package]
name = "taurine"
version = "0.1.0"
edition = "2021"
publish = false

[dependencies]
heapless = "*"
spin = "*"
x86_64 = { version = "*", default-features = false, features = ["instructions"] }
pic8259 = "*"
bootloader_api = "*"
const_env = "*"
