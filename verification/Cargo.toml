[package]
name = "mvht"
version = "0.1.0"
edition = "2021"
publish = false

[dependencies]
byteorder = "=1.5.0"
highway = "=0.7.0"
sha2 = "=0.9.9"
