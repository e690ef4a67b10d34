[package]
name = "rustfmsynth"
version = "0.1.0"
edition = "2021"
publish = false

[dependencies]
rand = "=0.9.5"
wasm-bindgen = "=0.2.129"
js-sys = "=0.3.106"
serde = { version = "=1.0.229", features = ["derive"] }
serde_json = "=1.0.154"
serde-wasm-bindgen = "=0.6.5"
fastrand = "=2.5.0"
hashbrown = "=0.15.5"
once_cell = "=1.21.4"
device_query = "=2.1.0"
midir = "0.10"
