[package]
name = "roland"
version = "0.1.0"
edition = "2021"
publish = false

[dependencies]
opencv = "*"
clap = { version = "4", features = ["derive"] }
