[package]
name = "feature_graph"
version = "0.1.0"
edition = "2021"
publish = false

[dependencies]
nalgebra = { version = "=0.32.6", features = ["serde-serialize"] }
serde = { version = "=1.0.229", features = ["derive"] }
bincode = "=1.3.3"
quick-error = "=2.0.1"
opencv = "=0.88.9"
cv-convert = { version = "=0.26.0", default-features = false, features = ["opencv", "nalgebra"] }
