[package]
name = "flanelly"
version = "0.1.0"
edition = "2021"
publish = false

[dependencies]
petgraph = { version = "0.6", features = ["serde-1"] }
vec1 = "1"
clap = "2"
serde = { version = "1", features = ["derive"] }
serde_json = "1"
