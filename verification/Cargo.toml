[package]
name = "ascent-jit"
version = "0.1.0"
edition = "2021"
publish = false

[dependencies]
wasm-encoder = "=0.263.0"
wasmtime = { version = "=46.0.3", default-features = false, features = ["cranelift", "runtime", "std"] }
