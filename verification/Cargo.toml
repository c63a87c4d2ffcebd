[package]
name = "matchstick"
version = "0.1.0"
edition = "2021"
publish = false

[dependencies]
hdrhistogram = "*"
sha2 = "*"
hmac = "*"
base64 = "*"
serde = { version = "*", features = ["derive"] }
serde_json = "*"
tokio = { version = "*", features = ["macros", "rt-multi-thread", "net", "time"] }
tokio-tungstenite = "*"
reqwest = { version = "*", default-features = false, features = ["json"] }
futures-util = "*"
chrono = "*"
thiserror = "*"
dotenvy = "*"
