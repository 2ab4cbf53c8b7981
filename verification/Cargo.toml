[package]
name = "organi_bandit"
version = "0.2.0"
edition = "2021"
publish = false

[dependencies]
chrono = { version = "0.4", features = ["serde"] }
chrono-tz = "0.10"
rand = "0.9"
serde = { version = "1", features = ["derive"] }
serde_derive = "1"
serde_json = "1"
thiserror = "2"
rust_xlsxwriter = "*"
rust-i18n = "3"
