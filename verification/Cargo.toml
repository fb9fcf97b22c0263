[package]
name = "stereo_measure"
version = "0.1.0"
edition = "2021"
publish = false

[dependencies]
anyhow = "1"
env_logger = "0.11"
image = { version = "0.25", default-features = false, features = ["png", "bmp"] }
log = "0.4"
nalgebra = "0.33"
parking_lot = "0.12"
rayon = "1"
serde = { version = "1", features = ["derive"] }
serde_json = "1"
tokio = { version = "1", features = ["full"] }
toml = "0.8"
warp = { version = "0.3", default-features = false }
webbrowser = "1"
