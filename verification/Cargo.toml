[package]
name = "local_lens"
version = "0.1.0"
edition = "2021"
publish = false

[dependencies]
base64 = "=0.22.1"
fast_image_resize = "=5.5.0"
fastembed = { version = "=4.9.1", default-features = false, features = ["hf-hub-rustls-tls"] }
hf-hub = { version = "=0.4.3", default-features = false, features = ["rustls-tls", "ureq"] }
image = { version = "=0.25.10", default-features = false, features = ["bmp", "gif", "jpeg", "png", "webp"] }
imageproc = { version = "=0.25.1", default-features = false }
kamadak-exif = "=0.6.1"
nalgebra = "=0.33.3"
ndarray = "=0.16.1"
ort = { version = "=2.0.0-rc.9", default-features = false, features = ["ndarray"] }
rusqlite = { version = "=0.32.1", features = ["bundled"] }
serde = { version = "1", features = ["derive"] }
serde_json = "1"
sqlite-vec = "=0.1.9"
time = "=0.3.55"
walkdir = "=2.5.0"
