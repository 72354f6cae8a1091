[package]
name = "icarus_editor"
version = "0.1.0"
edition = "2021"
publish = false

[dependencies]
anyhow = "1"
clap = { version = "4", features = ["derive"] }
codee = "*"
gloo-file = { version = "*", features = ["futures"] }
image = { version = "*", default-features = false, features = ["png"] }
js-sys = "0.3"
leptos = { version = "*", features = ["csr"] }
leptos-use = "*"
path-clean = "*"
regex = "1"
repak = "*"
serde = { version = "1", features = ["derive"] }
serde_json = "1"
texture2ddecoder = "*"
wasm-bindgen = "0.2"
web-sys = { version = "0.3", features = ["HtmlInputElement", "FileList", "File", "Blob", "BlobPropertyBag", "Url", "Window", "Document", "Element", "HtmlAnchorElement", "HtmlElement", "CssStyleDeclaration", "Node"] }
