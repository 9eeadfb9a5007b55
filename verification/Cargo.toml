[package]
name = "domi"
version = "0.1.0"
edition = "2021"
publish = false

[dependencies]
fxhash = "0.2"
js-sys = "0.3"
wasm-bindgen = "0.2"
wasm-bindgen-futures = "0.4"
web-sys = { version = "0.3", features = ["Document", "DomStringMap", "Element", "Event", "EventTarget", "HtmlElement", "Node", "NodeList", "Text", "Window"] }
