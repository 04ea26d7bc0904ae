[package]
name = "dataset_pipeline"
version = "0.1.0"
edition = "2021"
publish = false

[dependencies]
rand = "0.8"
image = { version = "0.24", default-features = false, features = ["jpeg", "png"] }
ndarray = "0.15"
itertools = "0.12"
