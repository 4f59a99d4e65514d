[package]
name = "allpairs"
version = "0.1.0"
edition = "2021"
publish = false

[dependencies]
pathfinding = "*"
fast_paths = "*"
clap = { version = "3", features = ["derive"] }
csv = "1"
serde = { version = "1", features = ["derive"] }
