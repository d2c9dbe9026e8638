[package]
name = "rust_chess_engine"
version = "0.1.0"
edition = "2021"
publish = false

[dependencies]
fastrand = "2"
chrono = { version = "0.4", default-features = false, features = ["clock"] }
