[package]
name = "imgcore"
version = "0.1.0"
edition = "2021"
publish = false

[dependencies]
zune-core = "*"
zune-jpeg = "*"
zune-ppm = "*"
zune-psd = "*"
zune-farbfeld = "*"

[dev-dependencies]
nanorand = "*"
