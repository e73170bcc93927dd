[package]
name = "img2mc"
version = "0.1.0"
edition = "2021"
publish = false

[dependencies]
delta_e = "=0.2.1"
lab = "=0.7.2"
rayon = "=1.12.0"
image = "=0.25.10"
fastnbt = "=2.6.3"
serde = { version = "=1.0.229", features = ["derive"] }
gumdrop = "=0.8.1"
camino = "=1.2.6"
reqwest = { version = "=0.13.5", default-features = false, features = ["blocking"] }
