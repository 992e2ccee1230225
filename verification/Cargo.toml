[package]
name = "vectis_crdt"
version = "0.1.0"
edition = "2021"
publish = false

[dependencies]
lz4_flex = "=0.11.6"
axum = { version = "=0.8.9", features = ["ws"] }
tokio = { version = "=1.54.1", features = ["rt-multi-thread", "macros", "net", "signal", "sync"] }
futures-util = "=0.3.34"
serde = { version = "=1.0.229", features = ["derive"] }
js-sys = "=0.3.107"
wasm-bindgen = "=0.2.130"
console_error_panic_hook = "=0.1.7"
pyo3 = { version = "0.24", features = ["abi3-py39", "extension-module"] }
web-sys = { version = "=0.3.107", features = ["BinaryType", "Blob", "CanvasRenderingContext2d", "CssStyleDeclaration", "Document", "DomRect", "Element", "Event", "EventTarget", "FileReader", "HtmlButtonElement", "HtmlCanvasElement", "HtmlElement", "HtmlInputElement", "Location", "MessageEvent", "MouseEvent", "Node", "Performance", "PointerEvent", "Storage", "UrlSearchParams", "WebSocket", "Window"] }
