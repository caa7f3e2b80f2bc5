[package]
name = "lbm"
version = "0.1.0"
edition = "2021"
publish = false

[dependencies]
bitvec = "1"
rand = "0.9"
rayon = "1"
itertools = "*"
image = { version = "0.25", default-features = false, features = ["bmp"] }
plotters = { version = "0.3", default-features = false, features = ["bitmap_backend", "bitmap_encoder"] }
