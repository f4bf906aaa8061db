[package]
name = "my_kmeans_lib"
version = "0.2.0"
edition = "2021"
publish = false

[dependencies]
anyhow = "1"
clap = { version = "4", features = ["derive"] }
csv = "1"
ndarray = "0.16"
rand = "0.8"
