[package]
name = "jotlog"
version = "0.1.0"
edition = "2021"
publish = false

[dependencies]
anyhow = "1"
arboard = { version = "3", default-features = false }
chrono = "0.4"
clap = { version = "4.5", features = ["derive"] }
crossterm = { version = "0.28", features = ["bracketed-paste"] }
dirs = "5"
ratatui = { version = "0.28", features = ["crossterm"] }
reqwest = { version = "0.12", default-features = false, features = ["blocking", "json", "rustls-tls"] }
serde = { version = "1", features = ["derive"] }
serde_json = "1"
symspell = "0.4"
toml = "0.8"
unicode-width = "0.1"
