[package]
name = "objstore"
version = "0.1.0"
edition = "2021"
publish = false

[dependencies]
sha1 = "0.10"
flate2 = "1"
hex = "0.4"
anyhow = "1"
chrono = "0.4"
clap = { version = "4", features = ["derive"] }
