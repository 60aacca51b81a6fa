[package]
name = "o_torrent"
version = "0.1.0"
edition = "2021"
publish = false

[dependencies]
bit-vec = "0.6"
sha1 = "0.6"
rand = "0.7"
serde = { version = "1", features = ["derive"] }
serde_bytes = "*"
serde_bencode = "*"
url = "*"
tokio = { version = "1", features = ["full"] }
tokio-util = { version = "*", features = ["codec"] }
bytes = "*"
futures = "*"
futures-util = "*"
