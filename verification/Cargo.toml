[package]
name = "orouter_serial"
version = "0.1.0"
edition = "2021"
publish = false

[dependencies]
base16 = "=0.2.1"
cobs = "=0.1.4"
heapless = "=0.7.17"
postcard = { version = "=1.1.3", features = ["use-std"] }
rand = { version = "=0.7.3", features = ["small_rng"] }
serde = { version = "=1.0.229", features = ["derive"] }
