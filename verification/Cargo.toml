[package]
name = "rfc_dep"
version = "0.1.0"
edition = "2021"
publish = false

[dependencies]
url = "*"
reqwest = { version = "*", default-features = false, features = ["blocking", "json"] }
scraper = "*"
regex = "*"
serde = { version = "*", features = ["derive"] }
serde_json = "*"
rayon = "*"
fast-xml = "*"
