[package]
name = "relaydrop"
version = "0.1.0"
edition = "2021"
publish = false

[dependencies]
aes-gcm = "*"
anyhow = "1"
async-trait = "0.1"
base64 = "*"
clap = { version = "4", features = ["derive", "env"] }
futures-util = "0.3"
hex = "0.4"
hkdf = "*"
postcard = { version = "1", features = ["alloc"] }
rand = "*"
rustls = { version = "0.23", default-features = false, features = ["ring", "std", "tls12"] }
sha2 = "*"
tokio = { version = "1", features = ["fs", "io-util", "macros", "net", "rt-multi-thread", "sync", "time"] }
tokio-tungstenite = { version = "*", features = ["rustls-tls-webpki-roots"] }
