[package]
name = "algvis"
version = "0.1.0"
edition = "2021"
publish = false

[dependencies]
rand = "0.8"
wasm-bindgen = "0.2"
web-sys = { version = "0.3", features = ["CanvasRenderingContext2d", "Document", "DomRect", "Element", "HtmlCanvasElement", "HtmlCollection", "HtmlTextAreaElement", "MouseEvent", "Window", "console"] }
yew = { version = "0.20", features = ["csr"] }
yew-hooks = "0.2"
yew-router = "0.17"
