[package]
name = "thermokarst"
version = "0.1.0"
edition = "2021"
publish = false

[dependencies]
anyhow = "1"
clap = { version = "4", features = ["derive"] }
image = { version = "0.25", default-features = false, features = ["png", "jpeg"] }
imageproc = { version = "0.25", default-features = false }
nalgebra = "0.33"
ndarray = "0.16"
serde = { version = "1", features = ["derive"] }
serde_json = "1"
thiserror = "1"
