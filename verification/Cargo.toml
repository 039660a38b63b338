[package]
name = "stemcount"
version = "0.1.0"
edition = "2021"
publish = false

[dependencies]
rust-stemmers = "*"
unicode-segmentation = "*"
clap = { version = "*", features = ["derive"] }
colored = "*"
