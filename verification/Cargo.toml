[package]
name = "bike_fit"
version = "0.1.0"
edition = "2021"
publish = false

[dependencies]
base64 = "0.22"
serde = { version = "1", features = ["derive"] }
serde_json = "1"
thiserror = "2"
log = "0.4"
env_logger = "0.11"
eframe = { version = "0.31", default-features = false, features = ["default_fonts", "glow", "x11"] }
wasm-bindgen = "0.2"
wasm-bindgen-futures = "0.4"
web-sys = { version = "0.3", features = ["Window", "Storage", "Location", "Document", "Element", "HtmlCanvasElement"] }
console_log = "1"
console_error_panic_hook = "0.1"
