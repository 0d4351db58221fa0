[package]
name = "kannolo"
version = "0.1.0"
edition = "2021"
publish = false

[dependencies]
clap = { version = "=4.6.7", features = ["derive"] }
dsi-bitstream = "=0.10.1"
half = "=2.7.1"
indicatif = { version = "=0.18.6", features = ["rayon"] }
num-traits = "=0.2.19"
optional = "=0.5.0"
postcard = { version = "=1.1.3", features = ["use-std"] }
rayon = "=1.12.0"
serde = { version = "=1.0.229", features = ["derive"] }
