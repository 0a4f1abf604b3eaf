[package]
name = "hen"
version = "0.1.0"
edition = "2021"
publish = false

[dependencies]
sha3 = "*"
serde = { version = "*", features = ["derive"] }
serde_json = "*"
clap = { version = "*", features = ["derive"] }
rayon = "*"
num_cpus = "*"
