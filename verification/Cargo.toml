[package]
name = "jmt"
version = "0.1.0"
edition = "2021"
publish = false

[dependencies]
anyhow = "1"
ics23 = "*"
sha2 = "0.10"

[dev-dependencies]
rand = "0.8"
