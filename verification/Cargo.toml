[package]
name = "grid_astar"
version = "0.1.0"
edition = "2021"
publish = false

[dependencies]
rand = "0.8"
colored = "2"
image = { version = "0.24", default-features = false, features = ["png"] }
