[package]
name = "fractal_compression"
version = "0.1.0"
edition = "2021"
publish = false

[dependencies]
ndarray = "=0.14.0"
ndarray-image = "=0.3.0"
rayon = "=1.12.0"
indicatif = "=0.18.6"
ordered-float = "=5.5.1"
rand = "=0.9.5"
num-traits = "=0.2.19"
