[package]
name = "gdn"
version = "0.1.0"
edition = "2021"
publish = false

[dependencies]
anyhow = "*"
clap = { version = "*", features = ["derive"] }
directories = "*"
git2 = { version = "*", default-features = false }
jiff = "*"
rand = "*"
