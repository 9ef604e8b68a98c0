[package]
name = "realgeopolitics"
version = "0.1.0"
edition = "2021"
publish = false

[dependencies]
anyhow = "1"
rand = "0.8"
serde = { version = "1", features = ["derive"] }
serde_json = "1"
serde_yaml = "0.9"
wasm-bindgen = "0.2"
js-sys = "0.3"
web-sys = { version = "0.3", features = ["CanvasRenderingContext2d", "Document", "Element", "Event", "EventTarget", "HtmlButtonElement", "HtmlCanvasElement", "HtmlElement", "HtmlInputElement", "HtmlSelectElement", "KeyboardEvent", "Node", "Window"] }
console_error_panic_hook = "0.1"
gloo-timers = "0.3"
yew = { version = "0.21", features = ["csr"] }
