[package]
name = "mbox_eml"
version = "0.1.0"
edition = "2021"
publish = false

[dependencies]
chrono = "0.4"
sanitize-filename = "*"
anyhow = "1"
clap = { version = "4", features = ["derive"] }
indicatif = "0.17"
