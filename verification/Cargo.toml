[package]
name = "filecrypt"
version = "0.1.0"
edition = "2021"
publish = false

[dependencies]
chacha20poly1305 = { version = "0.10", features = ["stream"] }
rand = "0.8"
serde_json = "1"
regex = "1"
reqwest = { version = "0.12", default-features = false, features = ["json", "stream"] }
tokio = { version = "1", features = ["rt-multi-thread", "macros"] }
futures-util = "0.3"
indicatif = "0.17"
