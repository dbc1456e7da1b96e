[package]
name = "lily"
version = "0.1.0"
edition = "2021"
publish = false

[dependencies]
similar = "2"
flate2 = "1"
tar = "0.4"
globset = "0.4"
walkdir = "2"
uuid = { version = "1", features = ["v4"] }
sha2 = "0.10"
hex_fmt = "0.3"
toml = "0.8"
serde = { version = "1", features = ["derive"] }
