[package]
name = "salib"
version = "0.1.0"
edition = "2021"
publish = false

[dependencies]
rand = "*"
rand_chacha = "*"
sha2 = "*"
serde = { version = "*", features = ["derive"] }
serde_json = "*"
ndarray = "*"
nalgebra = "*"
thiserror = "*"
sobol = "*"
