[package]
name = "profiling2"
version = "0.1.0"
edition = "2021"
publish = false

[dependencies]
nom = "7.1"
flate2 = "1.0"
num-traits = "0.2"
serde = { version = "1.0", features = ["derive"] }
thiserror = "1.0"
wasm-bindgen = "0.2"
js-sys = "0.3"
serde-wasm-bindgen = "0.6"
ouroboros = "0.18"
schemars = "0.8"
fastrand = "2.0"
