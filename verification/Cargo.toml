[package]
name = "gol"
version = "0.1.0"
edition = "2021"
publish = false

[dependencies]
rand = "0.8"
ansi_term = "0.12"
clap = { version = "4", features = ["derive"] }
indicatif = "0.17"
rayon = "1"
ril = "0.10"
