[package]
name = "repeatscan"
version = "0.1.0"
edition = "2021"
publish = false

[dependencies]
anyhow = "*"
bstr = "*"
clap = { version = "*", features = ["cargo"] }
gfa = "*"
