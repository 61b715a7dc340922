[package]
name = "namahage_swap"
version = "0.1.0"
edition = "2021"
publish = false

[dependencies]
rustc-hex = "2"
serde = { version = "1", features = ["derive"] }
serde_derive = "1"
