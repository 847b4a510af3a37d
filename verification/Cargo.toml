[package]
name = "asv_tools"
version = "0.1.0"
edition = "2021"
publish = false

[dependencies]
cgmath = "=0.18.0"
clap = { version = "=4.6.7", features = ["derive"] }
crossbeam = "=0.8.5"
indicatif = "=0.18.6"
log = "=0.4.35"
num-traits = "=0.2.19"
rayon = "=1.12.0"
simplelog = "=0.12.2"
