[package]
name = "cce_fonts"
version = "0.1.0"
edition = "2021"
publish = false

[dependencies]
iced = "0.14"
tokio = { version = "1", features = ["rt-multi-thread"] }
calloop = "0.14"
wayland-client = "0.31"
