[package]
name = "snake_sync"
version = "0.1.0"
edition = "2021"
publish = false

[dependencies]
serde = { version = "=1.0.229", features = ["derive"] }
serde-wasm-bindgen = "=0.6.5"
wasm-bindgen = "=0.2.129"
js-sys = "=0.3.106"
web-sys = { version = "=0.3.106", features = ["console", "CanvasRenderingContext2d", "HtmlCanvasElement", "OffscreenCanvas", "OffscreenCanvasRenderingContext2d", "TextMetrics"] }
web-time = "=1.1.0"
console_error_panic_hook = "=0.1.7"
