[package]
name = "linefreq"
version = "0.1.0"
edition = "2021"
publish = false

[dependencies]
anyhow = "1"
bstr = "1"
bumpalo = "3"
clap = { version = "4", features = ["derive"] }
csv = "1"
hashbrown = { version = "0.15", features = ["raw-entry"] }
regex = "1"
