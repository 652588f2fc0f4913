[package]
name = "exchange"
version = "0.1.0"
edition = "2021"
publish = false

[dependencies]
rustflake = "*"
serde = { version = "1", features = ["derive"] }
serde_json = "1"
rmp-serde = "1"
poem = { version = "1", features = ["websocket"] }
tokio = { version = "1", features = ["sync", "macros", "rt-multi-thread"] }
futures-util = "0.3"
lazy_static = "1"
rand = "0.8"
tracing-subscriber = "0.3"
wasm-bindgen = "0.2"
js-sys = "0.3"
web-sys = { version = "0.3", features = ["Document", "Window", "Element", "HtmlElement", "HtmlTableElement", "HtmlTableRowElement", "HtmlTableCaptionElement", "HtmlCollection", "WebSocket", "MessageEvent", "BinaryType", "HtmlCanvasElement", "HtmlSelectElement", "HtmlInputElement", "HtmlButtonElement", "console"] }
plotters = { version = "0.3", default-features = false, features = ["line_series", "all_elements"] }
plotters-canvas = "0.3"
