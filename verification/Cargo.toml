[package]
name = "e8_mask_codec"
version = "0.1.0"
edition = "2021"
publish = false

[dependencies]
zstd = "=0.14.3"
rayon = "=1.12.0"
ctrlc = "=3.5.2"
num-bigint = "=0.5.1"
serde = { version = "=1.0.229", features = ["derive"] }
serde_json = "=1.0.154"
