[package]
name = "eigen_trust"
version = "0.1.0"
edition = "2021"
publish = false

[dependencies]
hex = "0.4"
bs58 = "*"
halo2curves = "*"
tokio = { version = "1", features = ["time", "rt", "macros"] }
futures = "0.3"
