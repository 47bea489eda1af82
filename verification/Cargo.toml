[package]
name = "dedup_store"
version = "0.1.0"
edition = "2021"
publish = false

[dependencies]
sha2 = "*"
chacha20poly1305 = "*"
argon2 = "*"
miniz_oxide = "*"
getrandom = "*"
uuid = { version = "*", features = ["v4"] }
rusqlite = { version = "*", features = ["bundled"] }
sled = "*"
