[package]
name = "puzzle_solver"
version = "0.1.0"
edition = "2021"
publish = false

[dependencies]
chrono = { version = "0.4", default-features = false, features = ["clock", "std"] }
clap = { version = "4", features = ["derive"] }
wasm-bindgen = { version = "0.2", features = ["serde-serialize"] }
