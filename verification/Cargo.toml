[package]
name = "huffman"
version = "0.1.0"
edition = "2021"
publish = false

[dependencies]
ahash = "0.8"
bitvec = "1"
byteorder = "1"
clap = { version = "4", features = ["derive"] }
throbber = "*"
