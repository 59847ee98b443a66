[package]
name = "typst_spatial"
version = "0.1.0"
edition = "2021"
publish = false

[dependencies]
eisenstein = "0.3"
snapkit = "0.1"
nalgebra = "0.33"
serde = { version = "1", features = ["derive"] }
