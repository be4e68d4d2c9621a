[package]
name = "smartimg"
version = "0.1.0"
edition = "2021"
publish = false

[dependencies]
butteraugli = "0.9"
clap = { version = "4", features = ["derive"] }
image = { version = "0.25", default-features = false, features = ["jpeg", "png", "tiff", "webp"] }
rayon = "1"
serde = { version = "1", features = ["derive"] }
serde_json = "1"
sha2 = "0.10"
ssimulacra2 = "0.5"
