[package]
name = "slate_benchmark"
version = "0.1.0"
edition = "2021"
publish = false

[dependencies]
blake3 = { version = "1", default-features = false, features = ["std", "pure"] }
byteorder = "1"
chrono = "0.4"
clap = { version = "4", features = ["derive"] }
indicatif = "0.17"
rand = "0.9"
rayon = "1"
tempfile = "3"
