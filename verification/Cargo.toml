[package]
name = "mandelbrot"
version = "0.1.0"
edition = "2021"
publish = false

[dependencies]
crossbeam = "0.2.12"
image = { version = "0.13.0", default-features = false, features = ["png_codec"] }
num = { version = "0.1.43", default-features = false, features = ["complex"] }
