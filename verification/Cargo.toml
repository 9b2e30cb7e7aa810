[package]
name = "instagrep"
version = "0.1.0"
edition = "2021"
publish = false

[dependencies]
bincode = "1.3"
dashmap = "6"
fxhash = "0.2"
ignore = "0.4"
memmap2 = "0.9"
rayon = "1"
regex = "1"
regex-syntax = "0.8"
roaring = { version = "0.11", features = ["serde"] }
rustc-hash = "2"
serde = { version = "1", features = ["derive"] }
