[package]
name = "dedoop"
version = "0.1.0"
edition = "2021"
publish = false

[dependencies]
blake3 = "1"
clap = { version = "4", features = ["derive"] }
memmap2 = "0.9"
rayon = "1"
walkdir = "2"
