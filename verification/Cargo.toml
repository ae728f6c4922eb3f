[package]
name = "tsp_genetic"
version = "0.1.0"
edition = "2021"

[dependencies]
csv = "1"
rand = "0.7"
rayon = "1"
serde = { version = "1", features = ["derive"] }
