[package]
name = "wasm_split"
version = "0.1.0"
edition = "2021"
publish = false

[dependencies]
eyre = "=0.6.14"
regex = "=1.13.1"
tracing = "=0.1.44"
wasmparser = "0.254"
