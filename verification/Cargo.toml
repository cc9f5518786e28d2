[package]
name = "an-rope"
version = "0.3.1"
edition = "2021"
publish = false

[dependencies]
unicode-segmentation = "1"

[dev-dependencies]
quickcheck = { version = "1", default-features = false }
