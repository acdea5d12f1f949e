[package]
name = "fontbake"
version = "0.1.0"
edition = "2021"
publish = false

[dependencies]
png = "0.17"
ttf-parser = "0.25"
tiny-skia = "0.11"
skrifa = "*"
freetype-rs = "*"
thiserror = "2"
serde = { version = "1", features = ["derive"] }
serde_json = "1"
clap = { version = "4", features = ["derive"] }
wasm-bindgen = "0.2"
serde-wasm-bindgen = "0.6"
