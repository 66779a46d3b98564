[package]
name = "clique_fusion"
version = "0.1.0"
edition = "2021"
publish = false

[dependencies]
nalgebra = "0.33"
rstar = "0.12"
thiserror = "2"
uuid = { version = "1", features = ["v4"] }
