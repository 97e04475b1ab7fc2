[package]
name = "blocks"
version = "0.1.0"
edition = "2021"
publish = false

[dependencies]
rand = "0.8"
clap = { version = "4", features = ["derive"] }
kiss3d = "0.35"
wasm-bindgen = "0.2"
