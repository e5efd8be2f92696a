[package]
name = "prune_graph"
version = "0.1.0"
edition = "2021"
publish = false

[dependencies]
fasteval = "*"
clap = { version = "*", features = ["derive"] }
flate2 = "*"
