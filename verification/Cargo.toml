[package]
name = "algods"
version = "0.1.0"
edition = "2021"
publish = false

[dependencies]
clap = { version = "=4.6.7", features = ["string"] }
csv = "=1.4.0"
rand = "=0.8.8"
