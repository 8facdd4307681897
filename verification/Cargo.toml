[package]
name = "collatz-viz"
version = "0.1.0"
edition = "2021"
publish = false

[dependencies]
petgraph = "0.6"
clap = { version = "4", features = ["derive"] }
eframe = { version = "0.29", default-features = false, features = ["glow", "default_fonts", "x11"] }
