[package]
name = "olivaw-slam"
version = "0.1.0"
edition = "2021"
publish = false

[dependencies]
factrs = "=0.2.0"
kiddo = "=5.3.3"
nalgebra = { version = "=0.34.2", features = ["serde-serialize"] }
postcard = { version = "=1.1.3", features = ["use-std"] }
rayon = "=1.12.0"
serde = { version = "=1.0.229", features = ["derive"] }
thiserror = "=2.0.21"
