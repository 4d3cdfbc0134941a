[package]
name = "jfrv"
version = "0.1.0"
edition = "2021"
publish = false

[dependencies]
anyhow = "1"
chrono = "0.4"
console_error_panic_hook = "0.1"
console_log = "0.2"
flate2 = "1"
jfrs = "*"
js-sys = "0.3"
log = "0.4"
num-format = "0.4"
regex = "1"
rustc-hash = "1"
serde = { version = "1", features = ["derive"] }
thiserror = "1"
tsify = "0.4"
wasm-bindgen = "0.2"
web-sys = { version = "0.3", features = ["CanvasRenderingContext2d", "CssStyleDeclaration", "Document", "Element", "HtmlCanvasElement", "HtmlElement", "MouseEvent", "Node", "SvgGraphicsElement", "SvgRect", "Text", "Window"] }
