[package]
name = "ui3_core"
version = "0.1.0"
edition = "2021"
publish = false

[dependencies]
bevy = { version = "=0.16.1", default-features = false }
bevy_ecs = "=0.16.1"
console_error_panic_hook = "=0.1.7"
wasm-bindgen = "=0.2.129"
web-sys = { version = "=0.3.106", features = ["Document", "Event", "EventTarget", "HtmlElement", "HtmlInputElement", "Window"] }
