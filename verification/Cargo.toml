[package]
name = "fjiffyldg"
version = "0.1.0"
edition = "2021"
publish = false

[dependencies]
encoding_rs = "0.8"
memmap2 = "0.9"
parking_lot = "0.12"
rayon = "1"
thiserror = "2"

[dev-dependencies]
tempfile = "3"
