[package]
name = "catalog_export"
version = "0.1.0"
edition = "2021"
publish = false

[dependencies]
csv = "1"
quick-xml = { version = "*", features = ["serialize"] }
reqwest = { version = "*", default-features = false, features = ["blocking"] }
scraper = "*"
serde = { version = "1", features = ["derive"] }
