[package]
name = "semiframes"
version = "0.1.0"
edition = "2021"
publish = false

[dependencies]
nauty-Traces-sys = "*"
clap = { version = "4", features = ["derive"] }
