[package]
name = "sea-codec"
version = "0.1.0"
edition = "2021"
publish = false

[dependencies]
rubato = "*"
audioadapter-buffers = "*"
