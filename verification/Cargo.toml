[package]
name = "pdfcrop"
version = "0.1.0"
edition = "2021"
publish = false

[dependencies]
lopdf = "=0.46.0"
hayro = "=0.4.0"
hayro-interpret = "=0.4.0"
kurbo = "=0.12.0"
vello_cpu = "=0.3.0"
anyhow = "=1.0.104"
clap = { version = "=4.6.7", features = ["derive"] }
thiserror = "=2.0.21"
rayon = "=1.12.0"
wasm-bindgen = "=0.2.130"
js-sys = "=0.3.107"
web-sys = { version = "=0.3.107", features = ["console"] }
console_error_panic_hook = "=0.1.7"
wasm-logger = "=0.2.0"
