[package]
name = "lot_ledger"
version = "0.1.0"
edition = "2021"
publish = false

[dependencies]
chrono = "0.4"
serde = { version = "1", features = ["derive"] }
serde_yaml = "0.9"
fd-lock = "4"
rust_decimal = "1"
separator = "0.4"
