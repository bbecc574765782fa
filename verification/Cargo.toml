[package]
name = "processinator"
version = "0.1.0"
edition = "2021"
publish = false

[dependencies]
rayon = "1"
fitrs = "0.5"
thiserror = "*"
image = { version = "0.25", default-features = false, features = ["png", "jpeg"] }
