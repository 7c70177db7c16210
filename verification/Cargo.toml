[package]
name = "spartan_plot"
version = "0.1.0"
edition = "2021"
publish = false

[dependencies]
parity-scale-codec = "*"
parity-db = "*"
serde = { version = "*", features = ["derive"] }
serde_json = "*"
