[package]
name = "modslut"
version = "0.1.0"
edition = "2021"
publish = false

[dependencies]
flate2 = "1"
libloot = "*"
rayon = "1"
walkdir = "2"
image = { version = "0.25", default-features = false, features = ["png"] }
eframe = { version = "0.31", default-features = false, features = ["glow", "default_fonts", "x11"] }
rfd = { version = "0.17", default-features = false, features = ["xdg-portal"] }
