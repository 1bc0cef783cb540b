[package]
name = "paraselene"
version = "0.1.0"
edition = "2021"
publish = false

[dependencies]
rand = "0.8"
noise = "0.9"
serde = { version = "1", features = ["derive"] }
serde_derive = "1"
serde_json = "1"
anyhow = "1"
once_cell = "1"
num_cpus = "1"
image = { version = "0.25", default-features = false, features = ["png"] }
