[package]
name = "bladio"
version = "0.1.0"
edition = "2021"
publish = false

[dependencies]
fastrand = "*"
clap = { version = "*", features = ["derive"] }
lazy_static = "*"
pyo3 = "*"
regex = "*"
serde = { version = "*", features = ["derive"] }
serde_json = "*"
vorbis_rs = "*"
