[package]
name = "web2pdf"
version = "0.1.0"
edition = "2021"
publish = false

[dependencies]
anyhow = "1"
async-trait = "0.1"
chromiumoxide = "*"
futures = "0.3"
lopdf = "*"
quick-xml = "*"
reqwest = { version = "*", default-features = false }
scraper = "*"
tempfile = "3"
tokio = { version = "1", features = ["full"] }
tracing = "0.1"
tracing-subscriber = "0.3"
url = "2"
which = "*"
