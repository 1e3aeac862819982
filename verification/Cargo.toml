[package]
name = "drm_grabber"
version = "0.1.0"
edition = "2021"
publish = false

[dependencies]
image = { version = "=0.24.9", default-features = false, features = ["png"] }
drm = "=0.15.0"
drm-ffi = "=0.9.1"
clap = "=2.34.0"
nix = { version = "=0.31.3", features = ["mman"] }
