[package]
name = "wave_sim"
version = "0.1.0"
edition = "2021"
publish = false

[dependencies]
clap = { version = "4", features = ["derive"] }
plotters = "0.3"
symengine = "*"
