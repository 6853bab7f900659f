[package]
name = "voter"
version = "0.1.0"
edition = "2021"
publish = false

[dependencies]
rand = "=0.8.8"
itertools = "=0.10.5"
yew = { version = "=0.21.0", features = ["csr"] }
wasm-bindgen = "=0.2.129"
web-sys = { version = "=0.3.106", features = ["Event", "EventTarget", "InputEvent", "HtmlSelectElement", "HtmlTextAreaElement"] }

[dev-dependencies]
tallystick = { version = "=0.4.3", default-features = false }
