[package]
name = "t4a_bench"
version = "0.1.0"
edition = "2021"
publish = false

[dependencies]
anyhow = "1"
libm = "0.2"
num-complex = "0.4"
rand = "0.9"
rand_chacha = "0.9"
serde = { version = "1", features = ["derive"] }
serde_json = "1"
