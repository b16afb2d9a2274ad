[package]
name = "orient_core"
version = "0.1.0"
edition = "2021"
publish = false

[dependencies]
serde = { version = "1", features = ["derive"] }
serde_json = "1"
stl_io = "*"
clap = { version = "4", features = ["derive"] }
rayon = "1"
wasm-bindgen = "0.2"
js-sys = "0.3"
serde-wasm-bindgen = "*"
console_error_panic_hook = "0.1"
