[package]
name = "comiket_tsp"
version = "0.1.0"
edition = "2021"
publish = false

[dependencies]
rand = "*"
rayon = "1"
serde = { version = "1", features = ["derive"] }
serde_json = "1"
csv = "1"
clap = { version = "4", features = ["derive"] }
anyhow = "1"
thiserror = "2"
