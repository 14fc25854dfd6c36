[package]
name = "stryke-mssql"
version = "0.1.0"
edition = "2021"
publish = false

[dependencies]
base64 = "0.22"
chrono = "0.4"
once_cell = "1"
rust_decimal = "1"
serde_json = "1"
tiberius = { version = "0.12", default-features = false, features = ["tds73", "chrono", "rust_decimal", "rustls"] }
tokio = { version = "1", features = ["rt-multi-thread", "net", "sync"] }
tokio-util = { version = "0.7", features = ["compat"] }
uuid = "1"
