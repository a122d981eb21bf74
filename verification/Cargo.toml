[package]
name = "rustdict"
version = "0.1.0"
edition = "2021"
publish = false

[dependencies]
serde = { version = "*", features = ["derive"] }
serde_json = "*"
reqwest = { version = "*", default-features = false, features = ["blocking"] }
clap = { version = "*", features = ["derive"] }
ansi_term = "*"
