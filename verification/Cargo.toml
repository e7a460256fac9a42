[package]
name = "hole_map"
version = "0.1.0"
edition = "2021"
publish = false

[dependencies]
log = "=0.4.35"
nix = { version = "=0.30.1", features = ["fs"] }

[dev-dependencies]
tempfile = "=3.27.0"
