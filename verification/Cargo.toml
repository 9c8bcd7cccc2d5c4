[package]
name = "mod_orphans"
version = "0.1.0"
edition = "2021"
publish = false

[dependencies]
anyhow = "*"
anyhow-std = "*"
syn = { version = "*", features = ["full"] }
