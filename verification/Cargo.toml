[package]
name = "qu_interp"
version = "0.1.0"
edition = "2021"
publish = false

[dependencies]
jpeg-decoder = { version = "=0.3.2", features = ["platform_independent"] }
jpeg-encoder = "=0.6.1"
tiff = "=0.9.1"
serde_json = "=1.0.154"
rayon = "=1.12.0"
filetime = "=0.2.29"
memmap2 = "=0.9.12"
trash = "=5.2.9"
