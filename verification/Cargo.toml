[package]
name = "number8"
version = "0.1.0"
edition = "2021"
publish = false

[dependencies]
iced = { version = "=0.13.1", default-features = false, features = ["tiny-skia"] }
rand = "=0.8.8"
