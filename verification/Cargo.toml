[package]
name = "secsgml"
version = "0.1.0"
edition = "2021"
publish = false

[dependencies]
memchr = "2"
smallvec = "1"
serde = { version = "1", features = ["derive"] }
serde_json = "1"
thiserror = "1"

[dev-dependencies]
uuencode = "*"
