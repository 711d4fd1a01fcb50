[package]
name = "codimd_downloader"
version = "0.1.0"
edition = "2021"
publish = false

[dependencies]
regex = "1"
wildmatch = "2"
serde = { version = "1", features = ["derive"] }
serde_json = "1"
reqwest = { version = "0.12", default-features = false, features = ["blocking", "rustls-tls"] }
rm_rf = "0.6"
native-dialog = "0.9"
