[package]
name = "knot_math"
version = "0.1.0"
edition = "2021"
publish = false

[dependencies]
nalgebra = "=0.35.0"
quadrature = "=0.1.2"
serde = { version = "=1.0.229", features = ["derive"] }
