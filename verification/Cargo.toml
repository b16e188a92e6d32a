[package]
name = "lexiflash"
version = "0.1.0"
edition = "2021"
publish = false

[dependencies]
regex = "1"
nlprule = { version = "*", default-features = false, features = ["regex-fancy"] }
wordnet-db = "*"
wordnet-types = "*"
anyhow = "1"
serde = { version = "1", features = ["derive"] }
zip = { version = "*", default-features = false, features = ["deflate"] }
