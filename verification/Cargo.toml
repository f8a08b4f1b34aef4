[package]
name = "aanote"
version = "0.2.0"
edition = "2021"
publish = false

[dependencies]
chrono = "0.4"
filetime = "0.2"
keyring = "2"
reqwest = { version = "0.12", default-features = false, features = ["json", "multipart", "rustls-tls"] }
serde = { version = "1", features = ["derive"] }
serde_json = "1"
tokio = { version = "1", features = ["macros", "rt", "time"] }
walkdir = "2"
