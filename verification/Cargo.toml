[package]
name = "wasm-typst"
version = "0.1.0"
edition = "2021"
publish = false

[dependencies]
typst = "=0.15.1"
typst-layout = "=0.15.1"
typst-pdf = "=0.15.1"
typst-assets = { version = "=0.15.1", features = ["fonts"] }
