[package]
name = "greenboard"
version = "0.1.0"
edition = "2021"
publish = false

[dependencies]
rand = "=0.8.8"
colorous = "=1.0.16"

[dependencies.eframe]
version = "=0.24.1"
default-features = false
features = ["glow", "x11", "default_fonts"]
