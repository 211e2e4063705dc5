[package]
name = "seam-core"
version = "0.1.3"
edition = "2021"
publish = false

[dependencies]
pyo3 = { version = "*", features = ["abi3-py39"] }
napi = "*"
napi-derive = "*"
wasm-bindgen = "*"
js-sys = "*"
