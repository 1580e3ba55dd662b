[package]
name = "watercolor"
version = "0.1.0"
edition = "2021"
publish = false

[dependencies]
crc = "3"
serde = { version = "1", features = ["derive"] }
serde_json = "1"
wasm-bindgen = "0.2"
wasm-bindgen-futures = "0.4"
console_error_panic_hook = "0.1"
web-sys = { version = "0.3", features = ["Window", "Document", "Element", "HtmlElement", "HtmlAudioElement", "HtmlMediaElement", "HtmlInputElement", "Location", "Request", "RequestInit", "RequestMode", "Response", "DomTokenList", "EventTarget", "Node"] }
