[package]
name = "multidump"
version = "0.1.0"
edition = "2021"
publish = false

[dependencies]
clap = { version = "=4.6.7", features = ["derive"] }
console = { version = "=0.16.6", default-features = false, features = ["std"] }
indicatif = "=0.16.2"
