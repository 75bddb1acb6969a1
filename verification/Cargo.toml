[package]
name = "pdf_fixing_lib"
version = "0.1.0"
edition = "2021"
publish = false

[dependencies]
lopdf = { version = "=0.46.0", default-features = false }
anyhow = "=1.0.104"
structopt = "=0.3.26"
yew = { version = "=0.23.0", features = ["csr"] }
gloo-file = "=0.4.0"
html-escape = "=0.3.0"
js-sys = "=0.3.106"
web-sys = { version = "=0.3.106", features = ["HtmlInputElement", "Event", "File", "FileList", "Blob", "BlobPropertyBag", "Url"] }
