[package]
name = "vsaclip"
version = "0.1.0"
edition = "2021"
publish = false

[dependencies]
rand = "=0.8.8"
rayon = "=1.12.0"
arrow = { version = "=57.3.2", default-features = false }
fastembed = { version = "=5.17.4", default-features = false, features = ["image-models", "hf-hub-rustls-tls"] }
