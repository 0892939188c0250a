[package]
name = "outlines_core"
version = "0.1.0"
edition = "2021"
publish = false

[dependencies]
regex-automata = "0.4.9"
rustc-hash = "2.1.0"
bincode = { version = "2.0.0", features = ["derive"] }
