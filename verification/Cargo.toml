[package]
name = "code_for_next_week_in_rust"
version = "0.1.0"
edition = "2021"
publish = false

[dependencies]
rand = "=0.10.3"
image = { version = "=0.25.10", default-features = false, features = ["jpeg"] }
cudarc = { version = "=0.19.10", features = ["cuda-12080"] }
