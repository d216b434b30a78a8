[package]
name = "fast_util"
version = "0.1.0"
edition = "2021"
publish = false

[dependencies]
serialport = { version = "=4.10.1", default-features = false }
directories = "=6.0.0"
reqwest = { version = "=0.13.5", features = ["blocking"] }
zip = "=8.6.0"
indicatif = "=0.18.6"
