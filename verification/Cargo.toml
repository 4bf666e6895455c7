[package]
name = "aegeri"
version = "0.1.0"
edition = "2021"
publish = false

[dependencies]
ml-dsa = "0.1.2"
sha3 = "*"
serde = { version = "1", features = ["derive"] }
serde_json = "1"
thiserror = "2"
anyhow = "1"
log = "0.4"
