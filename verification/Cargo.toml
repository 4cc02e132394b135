[package]
name = "gitvm"
version = "0.1.0"
edition = "2021"
publish = false

[dependencies]
anyhow = "1"
git2 = "*"
hashbrown = "*"
rand = "0.8"
shellwords = "1"
