[package]
name = "chess"
version = "0.1.0"
edition = "2021"
publish = false

[dependencies]
byteorder = "1"
num_cpus = "1"
once_cell = "1"
clap = { version = "4", features = ["derive"] }
