[package]
name = "rolling_stock"
version = "0.1.0"
edition = "2021"
publish = false

[dependencies]
im = "15"
rayon = "1"
serde = { version = "1", features = ["derive"] }
serde_json = "1"
csv = "1"
itertools = "*"
rapid_solve = "*"
