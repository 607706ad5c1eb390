[package]
name = "chrono_light"
version = "0.1.0"
edition = "2021"
publish = false

[dependencies]
parity-scale-codec = "=3.7.5"

[dev-dependencies]
chrono = "0.4"
quickcheck = "1"
