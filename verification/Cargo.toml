[package]
name = "sudoku_solver"
version = "0.1.0"
edition = "2021"
publish = false

[dependencies]
serde = { version = "1", features = ["derive"] }
wasm-bindgen = { version = "=0.2.99", features = ["serde-serialize"] }
console_error_panic_hook = "0.1"
