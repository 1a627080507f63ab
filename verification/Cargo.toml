[package]
name = "goup"
version = "0.1.0"
edition = "2021"
publish = false

[dependencies]
anyhow = "1"
clap = { version = "4", features = ["derive"] }
console = "*"
directories = "*"
flate2 = "1"
indicatif = "*"
serde = { version = "1", features = ["derive"] }
serde_json = "1"
tar = "*"
ureq = { version = "3", features = ["json"] }
