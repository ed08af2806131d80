[package]
name = "lod_cloud_draw"
version = "0.1.0"
edition = "2021"
publish = false

[dependencies]
clap = "2"
htmlescape = "0.3"
noisy_float = "*"
rustimization = "*"
serde = { version = "1", features = ["derive"] }
serde_derive = "1"
serde_json = "1"
