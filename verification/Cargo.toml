[package]
name = "satisfactory_calc"
version = "0.1.0"
edition = "2021"
publish = false

[dependencies]
md-5 = "0.10"
serde = { version = "1", features = ["derive"] }
serde_json = "1"
ndarray = "0.15"
minilp = "0.2"
yew = { version = "0.20", features = ["csr"] }
stylist = { version = "0.12", features = ["yew_integration"] }
wasm-bindgen = "0.2"
web-sys = { version = "0.3", features = ["Event", "EventTarget", "HtmlElement", "HtmlInputElement", "InputEvent", "MouseEvent", "Url", "UrlSearchParams", "Window", "Location", "Document", "Node", "Element", "console"] }
