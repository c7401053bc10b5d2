[package]
name = "mac_file_analyzer"
version = "0.1.3"
edition = "2021"
publish = false

[dependencies]
clap = { version = "4", features = ["derive"] }
indicatif = "0.17"
libc = "0.2"
rayon = "1"
serde_json = "1"
