[package]
name = "linguist_termcolor"
version = "0.1.0"
edition = "2021"
publish = false

[dependencies]
color-art = "*"
anyhow = "*"
clap = { version = "*", features = ["derive"] }
colored = "*"
reqwest = { version = "*", default-features = false, features = ["blocking"] }
serde = { version = "*", features = ["derive"] }
serde_yaml = "*"
