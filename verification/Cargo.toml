[package]
name = "spyfall"
version = "0.1.0"
edition = "2021"
publish = false

[dependencies]
fastrand = "*"
base32 = "*"
serde = { version = "*", features = ["derive"] }
serde_json = "*"
smol = "*"
async-tungstenite = "*"
futures-util = "*"
