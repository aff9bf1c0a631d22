[package]
name = "customer_segmentation"
version = "0.1.0"
edition = "2021"
publish = false

[dependencies]
chrono = "0.4"
rand = "0.8"
csv = "1"
serde = { version = "1", features = ["derive"] }
