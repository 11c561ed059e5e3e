[package]
name = "tree_similarity"
version = "0.1.0"
edition = "2021"
publish = false

[dependencies]
rustc-hash = "2"
memchr = "2"
thiserror = "2"
serde = { version = "1", features = ["derive"] }
serde_json = "1"
