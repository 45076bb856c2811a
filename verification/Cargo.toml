[package]
name = "bencode_torrent"
version = "0.1.0"
edition = "2021"
publish = false

[dependencies]
clap = { version = "=4.6.7", features = ["derive"] }
hex = "=0.4.3"
reqwest = { version = "=0.12.28", features = ["blocking"] }
serde_json = "=1.0.154"
sha1 = "=0.10.7"

[dev-dependencies]
serde_bencode = "=0.2.4"
