[package]
name = "klang_parser"
version = "0.1.0"
edition = "2021"
publish = false

[dependencies]
pest = "2"
wasm-bindgen = "0.2"
