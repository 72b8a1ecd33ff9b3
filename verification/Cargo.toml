[package]
name = "apicase"
version = "0.1.0"
edition = "2021"
publish = false

[dependencies]
base64 = "0.22"
chrono = "0.4"
clap = { version = "4", features = ["derive"] }
clap_complete = "4"
cookie_store = { version = "*", features = ["serde_json"] }
md5 = "*"
regex = "1"
reqwest = { version = "0.12", default-features = false, features = ["cookies", "multipart", "rustls-tls"] }
rmcp = { version = "*", features = ["server", "transport-io"] }
schemars = "1"
serde = { version = "1", features = ["derive"] }
serde_json = { version = "1", features = ["preserve_order", "float_roundtrip"] }
serde_yaml = "0.9"
tokio = { version = "1", features = ["full"] }
