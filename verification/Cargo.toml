[package]
name = "yargle"
version = "0.1.0"
edition = "2021"
publish = false

[dependencies]
byteorder = "1"
midly = "0.5"
texture2ddecoder = "*"
encoding_rs = "0.8"
base64 = "0.22"
image = { version = "0.25", default-features = false, features = ["png", "jpeg"] }
serde = { version = "1", features = ["derive"] }
serde_json = "1"
chrono = "0.4"
rayon = "1"
rusqlite = { version = "*", features = ["bundled"] }
zip = { version = "*", default-features = false, features = ["deflate"] }
reqwest = { version = "0.12", default-features = false, features = ["json", "cookies", "rustls-tls"] }
tokio = { version = "1", features = ["rt", "time", "macros"] }
self-replace = "*"
