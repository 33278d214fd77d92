[package]
name = "elfshaker"
version = "0.9.0"
edition = "2021"
publish = false

[dependencies]
hex = "=0.4.3"
log = "0.4"
rmp-serde = "1"
serde = { version = "1", features = ["derive"] }
walkdir = "2"
