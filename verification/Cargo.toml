[package]
name = "acceleratorinator"
version = "0.1.0"
edition = "2021"
publish = false

[dependencies]
tinybmp = "*"
heapless = "0.8"
nusb = "0.1"
pollster = "*"
clap = { version = "4", features = ["derive"] }
anyhow = "*"
