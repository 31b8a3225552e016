[package]
name = "chartographer"
version = "0.1.0"
edition = "2021"
publish = false

[dependencies]
chrono = "0.4"
serde = { version = "1", features = ["derive"] }
serde_json = "1"
rusqlite = { version = "*", features = ["bundled"] }
reqwest = { version = "*", default-features = false, features = ["json", "multipart", "rustls-tls"] }
tokio = { version = "1", features = ["rt-multi-thread", "macros", "time", "net", "io-util", "sync"] }
keyring = { version = "3", features = ["linux-native"] }
rust_decimal = "1"
strsim = "*"
thiserror = "*"
tracing = "0.1"
tracing-subscriber = "0.3"
