[package]
name = "bampy"
version = "0.1.0"
edition = "2021"
publish = false

[dependencies]
approx = "*"
bvh = "*"
nalgebra = "*"
num = "*"
serde = { version = "*", features = ["derive"] }
tsify = "*"
wasm-bindgen = "*"
console_error_panic_hook = "*"
