[package]
name = "zenith"
version = "0.1.0"
edition = "2021"
publish = false

[dependencies]
anyhow = "1"
bincode = { version = "2", features = ["serde"] }
bitflags = "2"
blake3 = "1"
bytemuck = { version = "1", features = ["derive"] }
clap = { version = "4", features = ["derive"] }
env_logger = "0.11"
glam = "*"
gltf = "1"
half = "2"
image = { version = "0.25", default-features = false, features = ["png", "jpeg", "hdr", "bmp", "tga", "tiff", "webp"] }
ispc-texcomp = "*"
bevy_mikktspace = "*"
log = "0.4"
parking_lot = "0.12"
profiling = "1"
rayon = "1"
serde = { version = "1", features = ["derive"] }
serde_json = "1"
zstd = "0.13"
