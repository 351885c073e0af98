[package]
name = "genj"
version = "0.1.0"
edition = "2021"
publish = false

[dependencies]
zip = { version = "*", default-features = false, features = ["deflate"] }
walkdir = "*"
clap = { version = "*", features = ["derive"] }
serde_json = "*"
chrono = "*"
dirs = "*"
git2 = { version = "*", default-features = false }
