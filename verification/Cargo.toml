[package]
name = "shoehorn"
version = "0.1.0"
edition = "2021"
publish = false

[dependencies]
anyhow = "1"
clap = { version = "4", features = ["derive"] }
half = "2"
indicatif = { version = "*", features = ["rayon"] }
memmap2 = "0.9"
metal = "*"
nvml-wrapper = "*"
rayon = "1"
serde_json = "1"
tiny_http = "0.12"
