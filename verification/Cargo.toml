[package]
name = "compiler"
version = "0.1.0"
edition = "2021"
publish = false

[dependencies]
im = "15.1.0"
ariadne = "*"
wasm-bindgen = "*"
console_error_panic_hook = "*"
