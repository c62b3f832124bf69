[package]
name = "dupfinder"
version = "0.1.0"
edition = "2021"
publish = false

[dependencies]
sha_256 = "*"
clap = { version = "4", features = ["derive"] }
colored = "*"
