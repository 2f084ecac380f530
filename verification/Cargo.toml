[package]
name = "sem"
version = "0.1.0"
edition = "2021"
publish = false

[dependencies]
chrono = "=0.4.45"
colored = "=3.1.1"
comfy-table = "=8.0.1"
console = "=0.16.6"
dialoguer = { version = "=0.12.0", features = ["fuzzy-select"] }
directories = "=6.0.0"
