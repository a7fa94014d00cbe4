[package]
name = "hungarian"
version = "0.1.0"
edition = "2021"
publish = false

[dependencies]
rayon = "1"
wasm-bindgen = "0.2"
wasm-bindgen-rayon = "1"
