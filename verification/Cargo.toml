[package]
name = "tokenizations"
version = "0.4.2"
edition = "2021"
publish = false

[dependencies]
seqdiff = "=0.2.4"
unicode-normalization = "=0.1.26"

[dev-dependencies]
quickcheck = { version = "=1.1.0", default-features = false }
