[package]
name = "tabstore"
version = "0.1.0"
edition = "2021"
publish = false

[dependencies]
bincode = "1"
hex = "0.4"
openssl = "0.10"
rand = "0.8"
serde = { version = "1", features = ["derive"] }
serde_json = "1"
tokio = { version = "1", features = ["net", "io-util", "rt-multi-thread", "macros", "sync"] }
